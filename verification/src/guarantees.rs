//! What the TX lock guarantees, said of its parts: the clients, the PTY, the
//! connection that took the lock, and the claims that wait.
//!
//! Where [`crate::ownership`] says what each event makes of the whole state, the
//! laws here say of every event which parts it changes, how, and which it leaves
//! alone, and how events that follow each other hang together.
use crate::handshake::{
    handshake, law_handshake_presents_the_token, law_handshakes_start_with_the_word,
};
use crate::ownership::{
    Binding, Claim, ClientView, Ownership, VerdictView, lemma_claimed, lemma_filter_places,
    lemma_joined_by, lemma_released, name, name_list,
};
use crate::text::token_text;
use vstd::prelude::*;
use vstd::utf8::encode_utf8;

verus! {

/// What a client, a claim and an owner are told by: the numbers and tokens that
/// the state lists, and nothing else.
pub proof fn law_what_the_state_tells(o: Ownership, id: u64, token: u64, control: u64)
    ensures
        o.connected(id) <==> exists|i: int|
            0 <= i < o.clients.len() && (#[trigger] o.clients[i]).id == id,
        o.is_data(id) <==> exists|i: int|
            0 <= i < o.clients.len() && (#[trigger] o.clients[i]).id == id && o.clients[i].peer
                is Some,
        o.is_pending(token) <==> exists|i: int|
            0 <= i < o.pending.len() && (#[trigger] o.pending[i]).token == token,
        o.is_bound(token) <==> (o.bound matches Some(binding) && binding.claim.token == token),
        o.knows(token) <==> (o.bound matches Some(binding) && binding.claim.token == token)
            || exists|i: int| 0 <= i < o.pending.len() && (#[trigger] o.pending[i]).token == token,
        o.has_claims(control) <==> (o.bound matches Some(binding) && binding.claim.control
            == control) || exists|i: int|
            0 <= i < o.pending.len() && (#[trigger] o.pending[i]).control == control,
        o.is_pending(token) ==> o.pending.contains(o.pending_claim(token)) && o.pending_claim(
            token,
        ).token == token,
        o.bound matches Some(binding) ==> o.owner() == Some(binding.client),
        o.bound is None ==> o.owner() == o.pty,
        o.has_room() <==> o.next_client < u64::MAX,
{
    if o.is_pending(token) {
        let i = choose|i: int| 0 <= i < o.pending.len() && (#[trigger] o.pending[i]).token == token;
        assert(o.pending[i] == o.pending_claim(token));
    }
}

/// The states that can come about: distinct clients, numbered below the next
/// number, at most one of them without a peer and that one the PTY; the lock only
/// with a connected data connection; every token in use once.
pub proof fn law_which_states_are_valid(o: Ownership)
    ensures
        o.valid() <==> {
            &&& forall|i: int, j: int|
                0 <= i < o.clients.len() && 0 <= j < o.clients.len() && (#[trigger] o.clients[i]).id
                    == (#[trigger] o.clients[j]).id ==> i == j
            &&& forall|i: int|
                0 <= i < o.clients.len() ==> (#[trigger] o.clients[i]).id < o.next_client && (
                o.clients[i].peer is None <==> o.pty == Some(o.clients[i].id))
            &&& o.pty matches Some(id) ==> exists|i: int|
                0 <= i < o.clients.len() && (#[trigger] o.clients[i]).id == id
            &&& o.bound matches Some(binding) ==> exists|i: int|
                0 <= i < o.clients.len() && (#[trigger] o.clients[i]).id == binding.client
                    && o.clients[i].peer is Some
            &&& forall|i: int, j: int|
                0 <= i < o.pending.len() && 0 <= j < o.pending.len() && (
                #[trigger] o.pending[i]).token == (#[trigger] o.pending[j]).token ==> i == j
            &&& o.bound matches Some(binding) ==> forall|i: int|
                0 <= i < o.pending.len() ==> (#[trigger] o.pending[i]).token != binding.claim.token
        },
{
    if o.valid() {
        assert forall|i: int, j: int|
            0 <= i < o.clients.len() && 0 <= j < o.clients.len() && (#[trigger] o.clients[i]).id
                == (#[trigger] o.clients[j]).id implies i == j by {
            if i < j {
                assert(o.clients[i].id != o.clients[j].id);
            }
            if j < i {
                assert(o.clients[j].id != o.clients[i].id);
            }
        }
        assert forall|i: int, j: int|
            0 <= i < o.pending.len() && 0 <= j < o.pending.len() && (#[trigger] o.pending[i]).token
                == (#[trigger] o.pending[j]).token implies i == j by {
            if i < j {
                assert(o.pending[i].token != o.pending[j].token);
            }
            if j < i {
                assert(o.pending[j].token != o.pending[i].token);
            }
        }
        if o.bound is Some {
            assert(!o.is_pending(o.bound->0.claim.token));
        }
    }
}

/// At startup nobody is connected, nobody may transmit, and no token is known.
pub proof fn law_startup(notices: bool)
    ensures
        Ownership::initial(notices).valid(),
        Ownership::initial(notices).clients.len() == 0,
        Ownership::initial(notices).pending.len() == 0,
        Ownership::initial(notices).pty is None,
        Ownership::initial(notices).bound is None,
        Ownership::initial(notices).notices == notices,
        Ownership::initial(notices).next_client < u64::MAX,
        Ownership::initial(notices).next_control < u64::MAX,
{
}

/// A client that comes in is added behind the others, under the next number. All
/// others stay, and so do the claims and the connection that took the lock.
pub proof fn law_a_new_client_is_added(o: Ownership, peer: Option<Seq<char>>)
    requires
        o.next_client < u64::MAX,
    ensures
        ({
            let n = o.joined_by(peer);
            &&& n.clients.len() == o.clients.len() + 1
            &&& n.clients.subrange(0, o.clients.len() as int) == o.clients
            &&& n.clients.last() == (ClientView { id: o.next_client, peer })
            &&& n.connected(o.next_client)
            &&& peer is Some ==> n.is_data(o.next_client)
            &&& forall|id: u64| o.connected(id) ==> #[trigger] n.connected(id)
            &&& forall|id: u64| o.is_data(id) ==> #[trigger] n.is_data(id)
            &&& n.pty == (if peer is None {
                Some(o.next_client)
            } else {
                o.pty
            })
            &&& n.bound == o.bound
            &&& n.pending == o.pending
            &&& n.next_client == o.next_client + 1
            &&& n.next_control == o.next_control
            &&& n.notices == o.notices
        }),
{
    let n = o.joined_by(peer);
    assert(n.clients.subrange(0, o.clients.len() as int) =~= o.clients);
    assert(n.clients[n.clients.len() - 1].id == o.next_client);
    assert forall|id: u64| o.connected(id) implies #[trigger] n.connected(id) by {
        let i = choose|i: int| 0 <= i < o.clients.len() && (#[trigger] o.clients[i]).id == id;
        assert(n.clients[i].id == id);
    }
    assert forall|id: u64| o.is_data(id) implies #[trigger] n.is_data(id) by {
        let i = choose|i: int|
            0 <= i < o.clients.len() && (#[trigger] o.clients[i]).id == id && o.clients[i].peer
                is Some;
        assert(n.clients[i].id == id);
    }
}

/// A client that goes is the only one that goes; the others stay in their order.
/// The lock is released only if that client held it, and no claim is lost.
pub proof fn law_only_the_client_that_goes_is_gone(o: Ownership, id: u64)
    ensures
        ({
            let n = o.left_by(id);
            &&& n.clients == o.clients.filter(|c: ClientView| c.id != id)
            &&& forall|c: ClientView|
                #[trigger] n.clients.contains(c) <==> o.clients.contains(c) && c.id != id
            &&& o.pty == Some(id) ==> n.pty is None
            &&& o.pty != Some(id) ==> n.pty == o.pty
            &&& o.bound matches Some(binding) ==> n.bound == (if binding.client == id {
                None
            } else {
                Some(binding)
            })
            &&& o.bound is None ==> n.bound is None
            &&& n.pending == o.pending
            &&& n.next_client == o.next_client
            &&& n.next_control == o.next_control
            &&& n.notices == o.notices
        }),
{
    let n = o.left_by(id);
    let keep = |c: ClientView| c.id != id;
    let places = lemma_filter_places(o.clients, keep);
    assert forall|c: ClientView|
        #[trigger] n.clients.contains(c) <==> o.clients.contains(c) && c.id != id by {
        if n.clients.contains(c) {
            let i = n.clients.index_of(c);
            assert(o.clients[places[i]] == c);
        }
        if o.clients.contains(c) && c.id != id {
            let k = o.clients.index_of(c);
            assert(keep(o.clients[k]));
            let i = places.index_of(k);
            assert(n.clients[i] == c);
        }
    }
}

/// Control connections come and go without touching the clients or the lock; one
/// that goes takes exactly its own waiting claims with it.
pub proof fn law_control_connections_only_own_their_claims(o: Ownership, control: u64)
    requires
        o.next_control < u64::MAX,
    ensures
        ({
            let n = o.control_opened();
            &&& n.next_control == o.next_control + 1
            &&& n == (Ownership { next_control: n.next_control, ..o })
        }),
        ({
            let n = o.control_closed(control);
            &&& n == (Ownership { pending: n.pending, ..o })
            &&& n.pending == o.pending.filter(|c: Claim| c.control != control)
            &&& forall|c: Claim|
                #[trigger] n.pending.contains(c) <==> o.pending.contains(c) && c.control != control
        }),
{
    lemma_kept_claims(o.pending, |c: Claim| c.control != control);
}

proof fn lemma_kept_claims(pending: Seq<Claim>, keep: spec_fn(Claim) -> bool)
    ensures
        forall|c: Claim|
            #[trigger] pending.filter(keep).contains(c) <==> pending.contains(c) && keep(c),
{
    let kept = pending.filter(keep);
    let places = lemma_filter_places(pending, keep);
    assert forall|c: Claim|
        #[trigger] kept.contains(c) <==> pending.contains(c) && keep(c) by {
        if kept.contains(c) {
            let i = kept.index_of(c);
            assert(pending[places[i]] == c);
        }
        if pending.contains(c) && keep(c) {
            let k = pending.index_of(c);
            assert(keep(pending[k]));
            let i = places.index_of(k);
            assert(kept[i] == c);
        }
    }
}

/// A claim is held off exactly while a data connection has the lock and no force
/// is used, and is put off exactly if its token is in use. One that is granted
/// waits behind the others, and nothing else changes.
pub proof fn law_a_claim_only_waits(o: Ownership, claim: Claim)
    ensures
        o.claim_result(claim.force, claim.token) is Held <==> o.bound is Some && !claim.force,
        o.claim_result(claim.force, claim.token) is Taken <==> (o.bound is None || claim.force) && (
        (o.bound matches Some(binding) && binding.claim.token == claim.token) || exists|i: int|
            0 <= i < o.pending.len() && (#[trigger] o.pending[i]).token == claim.token),
        o.claimed(claim) == (Ownership { pending: o.pending.push(claim), ..o }),
{
}

/// Giving up a claim disconnects nobody: all clients stay, and so does the PTY.
/// The lock is released only if that claim holds it, and every claim with another
/// token stands.
pub proof fn law_a_release_only_gives_up_the_claim(o: Ownership, token: u64)
    ensures
        ({
            let n = o.released(token);
            &&& n.clients == o.clients
            &&& n.pty == o.pty
            &&& forall|id: u64| #[trigger] n.is_data(id) == o.is_data(id)
            &&& forall|id: u64| #[trigger] n.connected(id) == o.connected(id)
            &&& o.bound matches Some(binding) ==> n.bound == (if binding.claim.token == token {
                None
            } else {
                Some(binding)
            })
            &&& o.bound is None ==> n.bound is None
            &&& n.pending == o.pending.filter(|c: Claim| c.token != token)
            &&& forall|c: Claim|
                #[trigger] n.pending.contains(c) <==> o.pending.contains(c) && c.token != token
            &&& n.next_client == o.next_client
            &&& n.next_control == o.next_control
            &&& n.notices == o.notices
        }),
{
    lemma_kept_claims(o.pending, |c: Claim| c.token != token);
}

/// Giving up all claims of a control connection disconnects nobody either, and
/// leaves the claims of all others alone.
pub proof fn law_a_full_release_only_gives_up_own_claims(o: Ownership, control: u64)
    ensures
        ({
            let n = o.all_released(control);
            &&& n.clients == o.clients
            &&& n.pty == o.pty
            &&& o.bound matches Some(binding) ==> n.bound == (if binding.claim.control == control {
                None
            } else {
                Some(binding)
            })
            &&& o.bound is None ==> n.bound is None
            &&& n.pending == o.pending.filter(|c: Claim| c.control != control)
            &&& forall|c: Claim|
                #[trigger] n.pending.contains(c) <==> o.pending.contains(c) && c.control != control
            &&& n.next_client == o.next_client
            &&& n.next_control == o.next_control
            &&& n.notices == o.notices
        }),
{
    lemma_kept_claims(o.pending, |c: Claim| c.control != control);
}

/// A waiting claim that a data connection presents makes it the holder of the
/// lock, under that claim, if the lock is free, its own already, or the claim was
/// made by force. The claim then waits no more; all other claims and all clients
/// stay.
pub proof fn law_presenting_a_waiting_claim(o: Ownership, i: int, k: int)
    requires
        o.valid(),
        0 <= i < o.clients.len(),
        o.clients[i].peer is Some,
        0 <= k < o.pending.len(),
        o.pending[k].force || o.bound is None || o.bound->0.client == o.clients[i].id,
    ensures
        ({
            let n = o.presented(o.clients[i].id, o.pending[k].token);
            &&& n.bound == Some(Binding { client: o.clients[i].id, claim: o.pending[k] })
            &&& n.pending == o.pending.remove(k)
            &&& n == (Ownership { bound: n.bound, pending: n.pending, ..o })
        }),
{
    let id = o.clients[i].id;
    let token = o.pending[k].token;
    law_which_states_are_valid(o);
    assert(o.is_data(id));
    assert(o.is_pending(token));
    let j = choose|j: int| 0 <= j < o.pending.len() && (#[trigger] o.pending[j]).token == token;
    assert(j == k);
    assert(o.pending_claim(token) == o.pending[k]);
    lemma_filter_without_one(o.pending, token, k);
}

proof fn lemma_filter_without_one(pending: Seq<Claim>, token: u64, k: int)
    requires
        0 <= k < pending.len(),
        pending[k].token == token,
        forall|j: int| 0 <= j < pending.len() && j != k ==> (#[trigger] pending[j]).token != token,
    ensures
        pending.filter(|c: Claim| c.token != token) == pending.remove(k),
{
    let keep = |c: Claim| c.token != token;
    let places = lemma_filter_places(pending, keep);
    let kept = pending.filter(keep);
    assert forall|m: int| 0 <= m < pending.len() && m != k implies #[trigger] places.contains(
        m,
    ) by {
        assert(keep(pending[m]));
    }
    assert forall|i: int| 0 <= i < places.len() implies 0 <= #[trigger] places[i] < pending.len()
        && places[i] != k by {
        assert(keep(pending[places[i]]));
    }
    lemma_places_skip_one(places, pending.len() as int, k);
    assert(kept =~= pending.remove(k)) by {
        assert forall|i: int| 0 <= i < kept.len() implies kept[i] == pending.remove(k)[i] by {
            assert(kept[i] == pending[places[i]]);
        }
    }
}

proof fn lemma_places_skip_one(places: Seq<int>, len: int, k: int)
    requires
        0 <= k < len,
        forall|i: int| 0 <= i < places.len() ==> 0 <= #[trigger] places[i] < len && places[i] != k,
        forall|i: int, j: int|
            0 <= i < j < places.len() ==> #[trigger] places[i] < #[trigger] places[j],
        forall|m: int| 0 <= m < len && m != k ==> #[trigger] places.contains(m),
    ensures
        places.len() == len - 1,
        forall|i: int|
            0 <= i < places.len() ==> #[trigger] places[i] == (if i < k {
                i
            } else {
                i + 1
            }),
{
    lemma_places_up_to(places, len, k, len);
    if places.len() > 0 {
        assert(places[places.len() - 1] < len);
    }
}

/// The places below `m` are a prefix of known length and content.
proof fn lemma_places_up_to(places: Seq<int>, len: int, k: int, m: int)
    requires
        0 <= k < len,
        0 <= m <= len,
        forall|i: int| 0 <= i < places.len() ==> 0 <= #[trigger] places[i] < len && places[i] != k,
        forall|i: int, j: int|
            0 <= i < j < places.len() ==> #[trigger] places[i] < #[trigger] places[j],
        forall|q: int| 0 <= q < len && q != k ==> #[trigger] places.contains(q),
    ensures
        ({
            let n = if m <= k { m } else { m - 1 };
            &&& n <= places.len()
            &&& forall|i: int|
                0 <= i < n ==> #[trigger] places[i] == (if i < k {
                    i
                } else {
                    i + 1
                })
            &&& n < places.len() ==> places[n] >= m
        }),
    decreases m,
{
    if m > 0 {
        lemma_places_up_to(places, len, k, m - 1);
        let n = if m - 1 <= k { m - 1 } else { m - 2 };
        if m - 1 != k {
            let q = m - 1;
            assert(places.contains(q));
            let i = places.index_of(q);
            assert(places[i] == q);
            if i < n {
                assert(false);
            }
            if i > n {
                assert(places[n] < places[i]);
            }
            assert(i == n);
            if n + 1 < places.len() {
                assert(places[n] < places[n + 1]);
            }
        } else if n < places.len() {
            assert(places[n] != k);
        }
    }
}

/// Presenting a token changes nothing where no claim with it waits, where the
/// client is not a data connection, or where another data connection has the lock
/// and the claim was a plain one.
pub proof fn law_presenting_anything_else(o: Ownership, id: u64, token: u64)
    requires
        o.valid(),
    ensures
        (forall|i: int|
            0 <= i < o.clients.len() && (#[trigger] o.clients[i]).id == id ==> o.clients[i].peer
                is None) ==> o.presented(id, token) == o,
        (forall|k: int| 0 <= k < o.pending.len() ==> (#[trigger] o.pending[k]).token != token)
            ==> o.presented(id, token) == o,
        (o.bound matches Some(binding) && binding.client != id && forall|k: int|
            0 <= k < o.pending.len() && (#[trigger] o.pending[k]).token == token
                ==> !o.pending[k].force) ==> o.presented(id, token) == o,
{
    law_what_the_state_tells(o, id, token, 0);
    if o.is_pending(token) {
        let k = o.pending.index_of(o.pending_claim(token));
        assert(o.pending[k].token == token);
    }
}

/// A token is good for a client exactly if the client is a data connection, a
/// claim with that token waits, and the lock is free, with that client already,
/// or claimed by force.
pub proof fn law_when_a_token_is_good(o: Ownership, id: u64, token: u64)
    requires
        o.valid(),
    ensures
        o.can_take(id, token) <==> {
            &&& exists|i: int|
                0 <= i < o.clients.len() && (#[trigger] o.clients[i]).id == id && o.clients[i].peer
                    is Some
            &&& exists|k: int|
                0 <= k < o.pending.len() && (#[trigger] o.pending[k]).token == token && (
                o.pending[k].force || o.bound is None || o.bound->0.client == id)
        },
{
    law_which_states_are_valid(o);
    law_what_the_state_tells(o, id, token, 0);
    if o.is_pending(token) {
        let k = o.pending.index_of(o.pending_claim(token));
        assert(o.pending[k] == o.pending_claim(token));
        assert forall|j: int|
            0 <= j < o.pending.len() && (#[trigger] o.pending[j]).token == token implies j == k by {}
    }
}

/// On a data connection a handshake is taken out of what was sent, and presents
/// its token; anything else is meant for the port as it stands, and changes
/// nothing.
pub proof fn law_what_was_sent(o: Ownership, id: u64, data: Seq<u8>)
    ensures
        handshake(data) is None ==> o.payload(id, data) == data && o.received(id, data) == o,
        handshake(data) matches Some(h) ==> (exists|i: int|
            0 <= i < o.clients.len() && (#[trigger] o.clients[i]).id == id && o.clients[i].peer
                is Some) ==> {
            &&& o.payload(id, data) == h.rest
            &&& h.token is None ==> o.received(id, data) == o
            &&& h.token matches Some(token) ==> o.received(id, data) == o.presented(id, token)
        },
        (forall|i: int|
            0 <= i < o.clients.len() && (#[trigger] o.clients[i]).id == id ==> o.clients[i].peer
                is None) ==> o.payload(id, data) == data && o.received(id, data) == o,
{
}

/// Bytes meant for the port are forwarded, all and verbatim, if and only if their
/// sender has the lock, or nobody took it and the sender is the PTY. Otherwise
/// they are dropped, with a notice exactly if notices are enabled.
pub proof fn law_what_becomes_of_bytes(o: Ownership, id: u64, payload: Seq<u8>, data: Seq<u8>)
    ensures
        payload.len() == 0 ==> o.settled(id, payload) is Nothing,
        payload.len() > 0 ==> {
            let owns = match o.bound {
                Some(binding) => binding.client == id,
                None => o.pty == Some(id),
            };
            &&& owns ==> o.settled(id, payload) == VerdictView::Forward(payload)
            &&& !owns && !o.notices ==> o.settled(id, payload) == VerdictView::Drop(None)
            &&& !owns && o.notices ==> o.settled(id, payload) == VerdictView::Drop(
                Some(
                    encode_utf8(
                        "\r\n*** sermuxd: TX denied, another client holds the port ***\r\n"@,
                    ),
                ),
            )
        },
        o.verdict(id, data) == o.received(id, data).settled(id, o.payload(id, data)),
{
}

/// Only bytes that start with the word `TOKEN` and a space can be anything but
/// data: all others change nothing, and go to the port as they are if their
/// sender may transmit.
pub proof fn law_raw_data_is_left_alone(o: Ownership, id: u64, data: Seq<u8>)
    requires
        data.len() > 0,
        data.len() < 6 || data[0] != 'T' as u8 || data[1] != 'O' as u8 || data[2] != 'K' as u8
            || data[3] != 'E' as u8 || data[4] != 'N' as u8 || data[5] != ' ' as u8,
    ensures
        o.received(id, data) == o,
        o.payload(id, data) == data,
        (match o.bound {
            Some(binding) => binding.client == id,
            None => o.pty == Some(id),
        }) ==> o.verdict(id, data) == VerdictView::Forward(data),
        !(match o.bound {
            Some(binding) => binding.client == id,
            None => o.pty == Some(id),
        }) ==> o.verdict(id, data) is Drop,
{
    law_handshakes_start_with_the_word(data);
}

/// The PTY client goes by `pty`, a data connection by the address of its peer.
/// A list of names has them in order, separated by commas.
pub proof fn law_names(client: ClientView, others: Seq<ClientView>)
    ensures
        client.peer is None ==> name(client) == "pty"@,
        client.peer matches Some(peer) ==> name(client) == "tcp:"@ + peer,
        name_list(Seq::empty()).len() == 0,
        name_list(seq![client]) == name(client),
        others.len() > 0 ==> name_list(others.push(client)) == name_list(others) + ", "@ + name(
            client,
        ),
{
    assert(others.push(client).drop_last() =~= others);
}

/// The owner that is reported is the client whose bytes are forwarded, by its own
/// name; if there is none, the report says so.
pub proof fn law_the_reported_owner_is_the_owner(o: Ownership, i: int)
    requires
        o.valid(),
    ensures
        0 <= i < o.clients.len() && (match o.bound {
            Some(binding) => Some(binding.client),
            None => o.pty,
        }) == Some(o.clients[i].id) ==> o.owner_name() == (match o.clients[i].peer {
            Some(peer) => "tcp:"@ + peer,
            None => "pty"@,
        }),
        0 <= i < o.clients.len() ==> o.name_of(o.clients[i].id) == name(o.clients[i]),
        o.bound is None && o.pty is None ==> o.owner_name() == "none"@,
        o.bound is Some || o.pty is Some ==> exists|k: int|
            0 <= k < o.clients.len() && Some((#[trigger] o.clients[k]).id) == o.owner()
                && o.owner_name() == name(o.clients[k]),
{
    law_which_states_are_valid(o);
    if 0 <= i < o.clients.len() {
        lemma_name_of(o, i);
    }
    if o.bound is Some {
        let k = choose|k: int|
            0 <= k < o.clients.len() && (#[trigger] o.clients[k]).id == o.bound->0.client
                && o.clients[k].peer is Some;
        lemma_name_of(o, k);
        assert(Some(o.clients[k].id) == o.owner());
    } else if o.pty is Some {
        let k = choose|k: int| 0 <= k < o.clients.len() && (#[trigger] o.clients[k]).id == o.pty->0;
        lemma_name_of(o, k);
        assert(Some(o.clients[k].id) == o.owner());
    }
}

proof fn lemma_name_of(o: Ownership, i: int)
    requires
        o.valid(),
        0 <= i < o.clients.len(),
    ensures
        o.name_of(o.clients[i].id) == name(o.clients[i]),
{
    let id = o.clients[i].id;
    law_which_states_are_valid(o);
    let k = choose|k: int| 0 <= k < o.clients.len() && (#[trigger] o.clients[k]).id == id;
    assert(o.clients[k].id == id);
    assert(k == i);
}

/// A data connection that sends a handshake with a token that is good for it has
/// the lock, and what follows the handshake is forwarded.
pub proof fn law_a_good_token_opens_the_port(o: Ownership, i: int, k: int, rest: Seq<u8>)
    requires
        o.valid(),
        0 <= i < o.clients.len(),
        o.clients[i].peer is Some,
        0 <= k < o.pending.len(),
        o.pending[k].force || o.bound is None || o.bound->0.client == o.clients[i].id,
        rest.len() > 0,
    ensures
        ({
            let id = o.clients[i].id;
            let data = encode_utf8("TOKEN "@ + token_text(o.pending[k].token) + "\n"@) + rest;
            let n = o.received(id, data);
            &&& n == (Ownership { bound: n.bound, pending: n.pending, ..o })
            &&& n.bound == Some(Binding { client: id, claim: o.pending[k] })
            &&& n.pending == o.pending.remove(k)
            &&& o.verdict(id, data) == VerdictView::Forward(rest)
        }),
{
    let id = o.clients[i].id;
    let token = o.pending[k].token;
    law_handshake_presents_the_token(token, rest);
    law_presenting_a_waiting_claim(o, i, k);
    assert(o.is_data(id));
}

/// A tool may claim first and connect afterwards: a data connection that comes in
/// while the claim waits is listed like any other, takes the lock by presenting
/// the token, and what it sends behind the handshake is forwarded.
pub proof fn law_a_tool_may_connect_after_its_claim(
    o: Ownership,
    claim: Claim,
    peer: Seq<char>,
    rest: Seq<u8>,
)
    requires
        o.valid(),
        o.next_client < u64::MAX,
        o.claim_result(claim.force, claim.token) is Granted,
        rest.len() > 0,
    ensures
        ({
            let n = o.claimed(claim).joined_by(Some(peer));
            let id = o.next_client;
            let data = encode_utf8("TOKEN "@ + token_text(claim.token) + "\n"@) + rest;
            &&& n.clients == o.clients.push(ClientView { id, peer: Some(peer) })
            &&& n.received(id, data).bound == Some(Binding { client: id, claim })
            &&& n.received(id, data).clients == n.clients
            &&& n.received(id, data).pending == o.pending
            &&& n.verdict(id, data) == VerdictView::Forward(rest)
        }),
{
    let m = o.claimed(claim);
    let n = m.joined_by(Some(peer));
    assert(n.valid()) by {
        lemma_claimed(o, claim);
        lemma_joined_by(m, Some(peer));
    }
    let k = n.pending.len() - 1;
    law_a_good_token_opens_the_port(n, n.clients.len() - 1, k, rest);
    assert(n.pending.remove(k) =~= o.pending);
}

/// Releasing the lock leaves its former holder connected and as able as before:
/// it can claim anew, take the lock again, and transmit.
pub proof fn law_a_former_owner_can_claim_again(
    o: Ownership,
    token: u64,
    claim: Claim,
    rest: Seq<u8>,
)
    requires
        o.valid(),
        o.bound is Some,
        o.bound->0.claim.token == token,
        o.released(token).claim_result(claim.force, claim.token) is Granted,
        rest.len() > 0,
    ensures
        ({
            let id = o.bound->0.client;
            let n = o.released(token).claimed(claim);
            let data = encode_utf8("TOKEN "@ + token_text(claim.token) + "\n"@) + rest;
            &&& n.clients == o.clients
            &&& n.owner() == o.pty
            &&& n.received(id, data).bound == Some(Binding { client: id, claim })
            &&& n.received(id, data).clients == o.clients
            &&& n.verdict(id, data) == VerdictView::Forward(rest)
        }),
{
    let id = o.bound->0.client;
    let m = o.released(token);
    let n = m.claimed(claim);
    assert(n.valid()) by {
        lemma_released(o, token);
        lemma_claimed(m, claim);
    }
    let i = choose|i: int|
        0 <= i < o.clients.len() && (#[trigger] o.clients[i]).id == id && o.clients[i].peer is Some;
    law_a_good_token_opens_the_port(n, i, n.pending.len() - 1, rest);
}

/// A claim that waits is not lost by what happens to others: not by clients that
/// come, not by clients that go, not by other control connections that close, and
/// not by releases of other tokens.
pub proof fn law_a_waiting_claim_stays(
    o: Ownership,
    claim: Claim,
    peer: Option<Seq<char>>,
    id: u64,
    control: u64,
    token: u64,
)
    requires
        o.pending.contains(claim),
        o.next_client < u64::MAX,
        claim.control != control,
        claim.token != token,
    ensures
        o.joined_by(peer).pending.contains(claim),
        o.left_by(id).pending.contains(claim),
        o.control_opened().pending.contains(claim),
        o.control_closed(control).pending.contains(claim),
        o.released(token).pending.contains(claim),
        o.all_released(control).pending.contains(claim),
        o.presented(id, token).pending.contains(claim),
        o.claimed(Claim { token, control, force: false }).pending.contains(claim),
{
    lemma_kept_claims(o.pending, |c: Claim| c.control != control);
    lemma_kept_claims(o.pending, |c: Claim| c.token != token);
    let n = o.pending.push(Claim { token, control, force: false });
    let k = o.pending.index_of(claim);
    assert(n[k] == claim);
}

} // verus!
