//! Who may transmit: the model of the TX lock.
//!
//! The state is that of a lock with a default owner, the local PTY client, which
//! a data connection can take over by presenting a token that a control
//! connection was given. This module says how each event changes that state, and
//! proves what holds of the lock whatever happens.
use crate::handshake::{
    handshake, is_handshake, law_handshake_presents_the_token, lemma_one_handshake,
};
use crate::text::token_text;
use vstd::prelude::*;
use vstd::utf8::encode_utf8;

verus! {

/// A token that was handed out, the control connection that asked for it, and
/// whether it may take the lock from a connection that holds it.
#[derive(Clone, Copy, PartialEq, Eq, Structural)]
pub struct Claim {
    pub token: u64,
    pub control: u64,
    pub force: bool,
}

/// A data connection that took the lock, and the claim it presented.
#[derive(Clone, Copy, PartialEq, Eq, Structural)]
pub struct Binding {
    pub client: u64,
    pub claim: Claim,
}

/// A client: its number, and the address of its peer unless it is the PTY.
#[verifier::ext_equal]
pub struct ClientView {
    pub id: u64,
    pub peer: Option<Seq<char>>,
}

/// The name that a client goes by in reports.
pub open spec fn name(client: ClientView) -> Seq<char> {
    match client.peer {
        None => "pty"@,
        Some(peer) => "tcp:"@ + peer,
    }
}

/// The names of some clients, separated by commas.
pub open spec fn name_list(clients: Seq<ClientView>) -> Seq<char>
    decreases clients.len(),
{
    if clients.len() == 0 {
        Seq::empty()
    } else if clients.len() == 1 {
        name(clients[0])
    } else {
        name_list(clients.drop_last()) + ", "@ + name(clients.last())
    }
}

/// How a request for the lock ends.
pub enum ClaimResult {
    /// A token was handed out.
    Granted,
    /// A data connection holds the lock, and the request was not to steal it.
    Held,
    /// The proposed token is in use.
    Taken,
}

/// What becomes of bytes that a client sends towards the serial port.
pub enum VerdictView {
    /// There are none.
    Nothing,
    /// They are written to the port.
    Forward(Seq<u8>),
    /// They are dropped, and the client is sent this notice, if any.
    Drop(Option<Seq<u8>>),
}

/// The notice for a client whose bytes were dropped.
pub open spec fn denial_text() -> Seq<char> {
    "\r\n*** sermuxd: TX denied, another client holds the port ***\r\n"@
}

/// The state of the TX lock.
#[verifier::ext_equal]
pub struct Ownership {
    /// The connected clients, in the order of their arrival.
    pub clients: Seq<ClientView>,
    /// The PTY client, if there is one.
    pub pty: Option<u64>,
    /// The data connection that took the lock, if one did.
    pub bound: Option<Binding>,
    /// The claims whose tokens were not presented yet.
    pub pending: Seq<Claim>,
    /// The number that the next client gets.
    pub next_client: u64,
    /// The number that the next control connection gets.
    pub next_control: u64,
    /// Whether a client is told when its bytes are dropped.
    pub notices: bool,
}

impl Ownership {
    /// The state at startup.
    pub open spec fn initial(notices: bool) -> Ownership {
        Ownership {
            clients: Seq::empty(),
            pty: None,
            bound: None,
            pending: Seq::empty(),
            next_client: 1,
            next_control: 1,
            notices,
        }
    }

    /// Whether `id` is a connected client.
    pub open spec fn connected(self, id: u64) -> bool {
        exists|i: int| 0 <= i < self.clients.len() && (#[trigger] self.clients[i]).id == id
    }

    /// Whether `id` is a connected data connection.
    pub open spec fn is_data(self, id: u64) -> bool {
        exists|i: int|
            0 <= i < self.clients.len() && (#[trigger] self.clients[i]).id == id
                && self.clients[i].peer is Some
    }

    /// Whether a claim with this token waits to be presented.
    pub open spec fn is_pending(self, token: u64) -> bool {
        exists|i: int| 0 <= i < self.pending.len() && (#[trigger] self.pending[i]).token == token
    }

    /// The claim with this token.
    pub open spec fn pending_claim(self, token: u64) -> Claim {
        self.pending[choose|i: int|
            0 <= i < self.pending.len() && (#[trigger] self.pending[i]).token == token]
    }

    /// Whether `token` is that of the connection which holds the lock.
    pub open spec fn is_bound(self, token: u64) -> bool {
        self.bound is Some && self.bound->0.claim.token == token
    }

    /// Clients have distinct numbers, only the PTY client has no peer, only a
    /// connected data connection can have taken the lock, and no two claims
    /// share a token.
    pub open spec fn valid(self) -> bool {
        &&& forall|i: int, j: int|
            0 <= i < j < self.clients.len() ==> (#[trigger] self.clients[i]).id != (
            #[trigger] self.clients[j]).id
        &&& forall|i: int|
            0 <= i < self.clients.len() ==> (#[trigger] self.clients[i]).id < self.next_client
        &&& forall|i: int|
            0 <= i < self.clients.len() ==> ((#[trigger] self.clients[i]).peer is None <==> self.pty
                == Some(self.clients[i].id))
        &&& self.pty is Some ==> self.connected(self.pty->0)
        &&& self.bound is Some ==> self.is_data(self.bound->0.client)
        &&& forall|i: int, j: int|
            0 <= i < j < self.pending.len() ==> (#[trigger] self.pending[i]).token != (
            #[trigger] self.pending[j]).token
        &&& self.bound is Some ==> !self.is_pending(self.bound->0.claim.token)
    }

    /// The client that may transmit: the connection that took the lock, or else
    /// the PTY client.
    pub open spec fn owner(self) -> Option<u64> {
        match self.bound {
            Some(binding) => Some(binding.client),
            None => self.pty,
        }
    }

    /// The name of a connected client.
    pub open spec fn name_of(self, id: u64) -> Seq<char> {
        name(
            self.clients[choose|i: int|
                0 <= i < self.clients.len() && (#[trigger] self.clients[i]).id == id],
        )
    }

    /// The name of the client that may transmit, `none` if there is none.
    pub open spec fn owner_name(self) -> Seq<char> {
        match self.owner() {
            Some(id) => self.name_of(id),
            None => "none"@,
        }
    }

    /// Whether there are numbers left for new clients.
    pub open spec fn has_room(self) -> bool {
        self.next_client < u64::MAX
    }

    /// A new client comes in.
    pub open spec fn joined_by(self, peer: Option<Seq<char>>) -> Ownership {
        Ownership {
            clients: self.clients.push(ClientView { id: self.next_client, peer }),
            pty: if peer is None {
                Some(self.next_client)
            } else {
                self.pty
            },
            next_client: (self.next_client + 1) as u64,
            ..self
        }
    }

    /// Client `id` goes; if it held the lock, the lock is released.
    pub open spec fn left_by(self, id: u64) -> Ownership {
        Ownership {
            clients: self.clients.filter(|c: ClientView| c.id != id),
            pty: if self.pty == Some(id) {
                None
            } else {
                self.pty
            },
            bound: if self.bound is Some && self.bound->0.client == id {
                None
            } else {
                self.bound
            },
            ..self
        }
    }

    /// A control connection comes in.
    pub open spec fn control_opened(self) -> Ownership {
        Ownership { next_control: (self.next_control + 1) as u64, ..self }
    }

    /// Control connection `control` goes, and with it the claims that it was
    /// given and that were not presented.
    pub open spec fn control_closed(self, control: u64) -> Ownership {
        Ownership { pending: self.pending.filter(|c: Claim| c.control != control), ..self }
    }

    /// How a request for the lock ends, where `token` would be handed out.
    pub open spec fn claim_result(self, force: bool, token: u64) -> ClaimResult {
        if self.bound is Some && !force {
            ClaimResult::Held
        } else if self.is_pending(token) || self.is_bound(token) {
            ClaimResult::Taken
        } else {
            ClaimResult::Granted
        }
    }

    /// A token is handed out.
    pub open spec fn claimed(self, claim: Claim) -> Ownership {
        Ownership { pending: self.pending.push(claim), ..self }
    }

    /// Whether there is a claim with this token, presented or not.
    pub open spec fn knows(self, token: u64) -> bool {
        self.is_bound(token) || self.is_pending(token)
    }

    /// The claim with this token is given up.
    pub open spec fn released(self, token: u64) -> Ownership {
        Ownership {
            bound: if self.is_bound(token) {
                None
            } else {
                self.bound
            },
            pending: self.pending.filter(|c: Claim| c.token != token),
            ..self
        }
    }

    /// Whether control connection `control` was given a claim that still
    /// stands, presented or not.
    pub open spec fn has_claims(self, control: u64) -> bool {
        ||| self.bound is Some && self.bound->0.claim.control == control
        ||| exists|i: int|
            0 <= i < self.pending.len() && (#[trigger] self.pending[i]).control == control
    }

    /// All claims that control connection `control` was given are given up.
    pub open spec fn all_released(self, control: u64) -> Ownership {
        Ownership {
            bound: if self.bound is Some && self.bound->0.claim.control == control {
                None
            } else {
                self.bound
            },
            pending: self.pending.filter(|c: Claim| c.control != control),
            ..self
        }
    }

    /// Whether client `id` takes the lock by presenting `token`: it must be a
    /// data connection, the token must be waiting, and the lock must not be with
    /// another data connection, unless the claim was made to steal it.
    pub open spec fn can_take(self, id: u64, token: u64) -> bool {
        &&& self.is_data(id)
        &&& self.is_pending(token)
        &&& self.pending_claim(token).force || self.bound is None || self.bound->0.client == id
    }

    /// Client `id` presents `token`.
    pub open spec fn presented(self, id: u64, token: u64) -> Ownership {
        if self.can_take(id, token) {
            Ownership {
                bound: Some(Binding { client: id, claim: self.pending_claim(token) }),
                pending: self.pending.filter(|c: Claim| c.token != token),
                ..self
            }
        } else {
            self
        }
    }

    /// The bytes that client `id` means for the serial port when it sends
    /// `data`: a handshake on a data connection is not among them.
    pub open spec fn payload(self, id: u64, data: Seq<u8>) -> Seq<u8> {
        match handshake(data) {
            Some(h) => if self.is_data(id) {
                h.rest
            } else {
                data
            },
            None => data,
        }
    }

    /// Client `id` sends `data`; a handshake on a data connection presents its
    /// token.
    pub open spec fn received(self, id: u64, data: Seq<u8>) -> Ownership {
        match handshake(data) {
            Some(h) => match h.token {
                Some(token) => self.presented(id, token),
                None => self,
            },
            None => self,
        }
    }

    /// What becomes of bytes that are dropped: a notice goes out if notices are
    /// enabled.
    pub open spec fn denial(self) -> VerdictView {
        if self.notices {
            VerdictView::Drop(Some(encode_utf8(denial_text())))
        } else {
            VerdictView::Drop(None)
        }
    }

    /// What becomes of bytes that client `id` means for the serial port: the
    /// owner's are forwarded, everybody else's are dropped.
    pub open spec fn settled(self, id: u64, payload: Seq<u8>) -> VerdictView {
        if payload.len() == 0 {
            VerdictView::Nothing
        } else if self.owner() == Some(id) {
            VerdictView::Forward(payload)
        } else {
            self.denial()
        }
    }

    /// What becomes of what client `id` sends as `data`, once a handshake in it
    /// has had its effect.
    pub open spec fn verdict(self, id: u64, data: Seq<u8>) -> VerdictView {
        self.received(id, data).settled(id, self.payload(id, data))
    }
}

/// Where the elements that a filter keeps stood before, in order.
pub(crate) proof fn lemma_filter_places<A>(s: Seq<A>, keep: spec_fn(A) -> bool) -> (places: Seq<
    int,
>)
    ensures
        places.len() == s.filter(keep).len(),
        forall|i: int|
            0 <= i < places.len() ==> {
                &&& 0 <= #[trigger] places[i] < s.len()
                &&& s.filter(keep)[i] == s[places[i]]
                &&& keep(s[places[i]])
            },
        forall|i: int, j: int|
            0 <= i < j < places.len() ==> #[trigger] places[i] < #[trigger] places[j],
        forall|k: int| 0 <= k < s.len() && keep(#[trigger] s[k]) ==> places.contains(k),
    decreases s.len(),
{
    reveal(Seq::filter);
    if s.len() == 0 {
        Seq::empty()
    } else {
        let before = s.drop_last();
        let head = lemma_filter_places(before, keep);
        let places = if keep(s.last()) {
            head.push(s.len() - 1)
        } else {
            head
        };
        assert forall|k: int| 0 <= k < s.len() && keep(#[trigger] s[k]) implies places.contains(
            k,
        ) by {
            if k < s.len() - 1 {
                assert(before[k] == s[k]);
                let i = head.index_of(k);
                assert(places[i] == k);
            } else {
                assert(places[places.len() - 1] == k);
            }
        }
        places
    }
}

/// A filter that every element passes changes nothing.
pub(crate) proof fn lemma_filter_keeps_all<A>(s: Seq<A>, keep: spec_fn(A) -> bool)
    requires
        forall|i: int| 0 <= i < s.len() ==> keep(#[trigger] s[i]),
    ensures
        s.filter(keep) == s,
    decreases s.len(),
{
    reveal(Seq::filter);
    if s.len() > 0 {
        lemma_filter_keeps_all(s.drop_last(), keep);
        assert(s.drop_last().push(s.last()) =~= s);
    }
}

/// A client that comes in leaves the state valid.
pub(crate) proof fn lemma_joined_by(o: Ownership, peer: Option<Seq<char>>)
    requires
        o.valid(),
        o.has_room(),
        peer is None ==> o.pty is None,
    ensures
        o.joined_by(peer).valid(),
{
    let n = o.joined_by(peer);
    assert forall|i: int| 0 <= i < o.clients.len() implies n.clients[i] == #[trigger] o.clients[i] by {}
    assert(n.clients[n.clients.len() - 1].id == o.next_client);
    if o.pty is Some {
        let i = choose|i: int|
            0 <= i < o.clients.len() && (#[trigger] o.clients[i]).id == o.pty->0;
        assert(n.clients[i].id == o.pty->0);
    }
    if o.bound is Some {
        let i = choose|i: int|
            0 <= i < o.clients.len() && (#[trigger] o.clients[i]).id == o.bound->0.client
                && o.clients[i].peer is Some;
        assert(n.clients[i].id == o.bound->0.client);
    }
}

/// A client that goes leaves the state valid.
pub(crate) proof fn lemma_left_by(o: Ownership, id: u64)
    requires
        o.valid(),
    ensures
        o.left_by(id).valid(),
        forall|other: u64|
            #[trigger] o.left_by(id).connected(other) <==> o.connected(other) && other != id,
        forall|other: u64|
            #[trigger] o.left_by(id).is_data(other) <==> o.is_data(other) && other != id,
{
    let n = o.left_by(id);
    let keep = |c: ClientView| c.id != id;
    let places = lemma_filter_places(o.clients, keep);
    assert forall|other: u64| #[trigger] n.connected(other) <==> o.connected(other) && other
        != id by {
        if n.connected(other) {
            let i = choose|i: int|
                0 <= i < n.clients.len() && (#[trigger] n.clients[i]).id == other;
            assert(o.clients[places[i]].id == other);
        }
        if o.connected(other) && other != id {
            let k = choose|k: int|
                0 <= k < o.clients.len() && (#[trigger] o.clients[k]).id == other;
            let i = places.index_of(k);
            assert(n.clients[i].id == other);
        }
    }
    assert forall|other: u64| #[trigger] n.is_data(other) <==> o.is_data(other) && other != id by {
        if n.is_data(other) {
            let i = choose|i: int|
                0 <= i < n.clients.len() && (#[trigger] n.clients[i]).id == other
                    && n.clients[i].peer is Some;
            assert(o.clients[places[i]].id == other);
        }
        if o.is_data(other) && other != id {
            let k = choose|k: int|
                0 <= k < o.clients.len() && (#[trigger] o.clients[k]).id == other
                    && o.clients[k].peer is Some;
            let i = places.index_of(k);
            assert(n.clients[i].id == other);
        }
    }
    assert forall|i: int| 0 <= i < n.clients.len() implies {
        &&& (#[trigger] n.clients[i]) == o.clients[places[i]]
        &&& n.clients[i].id != id
    } by {}
    if n.bound is Some {
        assert(n.is_data(n.bound->0.client));
    }
    if n.pty is Some {
        assert(n.connected(n.pty->0));
    }
    assert(n.pending == o.pending);
    if n.bound is Some {
        assert(!o.is_pending(n.bound->0.claim.token));
    }
}

/// Dropping pending claims leaves the state valid, whether or not the lock is
/// released with them.
proof fn lemma_fewer_claims(o: Ownership, n: Ownership, keep: spec_fn(Claim) -> bool)
    requires
        o.valid(),
        n == (Ownership { pending: o.pending.filter(keep), bound: n.bound, ..o }),
        n.bound is None || n.bound == o.bound,
    ensures
        n.valid(),
        forall|token: u64| #[trigger] n.is_pending(token) ==> o.is_pending(token),
        forall|i: int| 0 <= i < n.pending.len() ==> keep(#[trigger] n.pending[i]),
        forall|i: int| 0 <= i < n.pending.len() ==> o.pending.contains(#[trigger] n.pending[i]),
        forall|i: int|
            0 <= i < o.pending.len() && keep(#[trigger] o.pending[i]) ==> n.pending.contains(
                o.pending[i],
            ),
{
    let places = lemma_filter_places(o.pending, keep);
    assert forall|i: int| 0 <= i < n.pending.len() implies {
        &&& (#[trigger] n.pending[i]) == o.pending[places[i]]
        &&& keep(n.pending[i])
    } by {}
    assert forall|token: u64| #[trigger] n.is_pending(token) implies o.is_pending(token) by {
        let i = choose|i: int| 0 <= i < n.pending.len() && (#[trigger] n.pending[i]).token == token;
        assert(o.pending[places[i]].token == token);
    }
    assert forall|k: int| 0 <= k < o.pending.len() && keep(#[trigger] o.pending[k]) implies
        n.pending.contains(o.pending[k]) by {
        let i = places.index_of(k);
        assert(n.pending[i] == o.pending[k]);
    }
    assert(n.clients == o.clients);
    assert(forall|id: u64| #[trigger] n.connected(id) == o.connected(id));
    assert(forall|id: u64| #[trigger] n.is_data(id) == o.is_data(id));
}

/// A closing control connection leaves the state valid.
pub(crate) proof fn lemma_control_closed(o: Ownership, control: u64)
    requires
        o.valid(),
    ensures
        o.control_closed(control).valid(),
{
    lemma_fewer_claims(o, o.control_closed(control), |c: Claim| c.control != control);
}

/// Giving up a claim leaves the state valid.
pub(crate) proof fn lemma_released(o: Ownership, token: u64)
    requires
        o.valid(),
    ensures
        o.released(token).valid(),
{
    lemma_fewer_claims(o, o.released(token), |c: Claim| c.token != token);
}

/// Giving up all claims of a control connection leaves the state valid.
pub(crate) proof fn lemma_all_released(o: Ownership, control: u64)
    requires
        o.valid(),
    ensures
        o.all_released(control).valid(),
{
    lemma_fewer_claims(o, o.all_released(control), |c: Claim| c.control != control);
}

/// Handing out a token leaves the state valid.
pub(crate) proof fn lemma_claimed(o: Ownership, claim: Claim)
    requires
        o.valid(),
        !o.knows(claim.token),
    ensures
        o.claimed(claim).valid(),
        o.claimed(claim).is_pending(claim.token),
        o.claimed(claim).pending_claim(claim.token) == claim,
{
    let n = o.claimed(claim);
    assert(n.pending[n.pending.len() - 1] == claim);
    assert forall|i: int| 0 <= i < o.pending.len() implies n.pending[i] == #[trigger] o.pending[i]
        && n.pending[i].token != claim.token by {}
    if n.bound is Some && n.is_pending(n.bound->0.claim.token) {
        let t = n.bound->0.claim.token;
        let i = choose|i: int| 0 <= i < n.pending.len() && (#[trigger] n.pending[i]).token == t;
        assert(i < o.pending.len());
        assert(o.pending[i].token == t);
    }
    assert(forall|id: u64| #[trigger] n.connected(id) == o.connected(id));
    assert(forall|id: u64| #[trigger] n.is_data(id) == o.is_data(id));
    let i = choose|i: int|
        0 <= i < n.pending.len() && (#[trigger] n.pending[i]).token == claim.token;
    assert(i == n.pending.len() - 1);
}

/// Presenting a token leaves the state valid.
pub(crate) proof fn lemma_presented(o: Ownership, id: u64, token: u64)
    requires
        o.valid(),
    ensures
        o.presented(id, token).valid(),
{
    if o.can_take(id, token) {
        let n = o.presented(id, token);
        let keep = |c: Claim| c.token != token;
        let free = Ownership { bound: None, pending: o.pending.filter(keep), ..o };
        lemma_fewer_claims(o, free, keep);
        assert(n.pending == free.pending);
        assert(forall|other: u64| #[trigger] n.connected(other) == free.connected(other));
        assert(forall|other: u64| #[trigger] n.is_data(other) == o.is_data(other));
        assert(o.pending_claim(token).token == token);
    }
}

/// Exactly one client can write at a time: when bytes of one client were
/// forwarded, what another client sends next is not, unless it presents a token.
pub proof fn law_one_writer_at_a_time(
    o: Ownership,
    writer: u64,
    written: Seq<u8>,
    other: u64,
    tried: Seq<u8>,
)
    requires
        o.verdict(writer, written) is Forward,
        other != writer,
        handshake(tried) is None,
    ensures
        !(o.received(writer, written).verdict(other, tried) is Forward),
        o.received(writer, written).received(other, tried) == o.received(writer, written),
{
}

/// The owner's bytes are forwarded verbatim, and everybody else's are dropped
/// without any effect on the lock; a notice goes out if and only if notices are
/// enabled.
pub proof fn law_only_the_owner_transmits(o: Ownership, id: u64, data: Seq<u8>)
    requires
        handshake(data) is None,
        data.len() > 0,
    ensures
        o.received(id, data) == o,
        o.owner() == Some(id) ==> o.verdict(id, data) == VerdictView::Forward(data),
        o.owner() != Some(id) && o.notices ==> o.verdict(id, data) == VerdictView::Drop(
            Some(encode_utf8(denial_text())),
        ),
        o.owner() != Some(id) && !o.notices ==> o.verdict(id, data) == VerdictView::Drop(None),
{
}

/// Bytes that had to wait follow the lock: in any state, those of one client at
/// most are forwarded, and only if that client is the owner then.
pub proof fn law_waiting_bytes_follow_the_lock(
    o: Ownership,
    a: u64,
    first: Seq<u8>,
    b: u64,
    second: Seq<u8>,
)
    ensures
        first.len() > 0 ==> (o.settled(a, first) == VerdictView::Forward(first) <==> o.owner()
            == Some(a)),
        o.settled(a, first) is Forward && o.settled(b, second) is Forward ==> a == b,
{
}

/// The PTY client's stream is fully transparent: what it sends is never taken
/// for a handshake.
pub proof fn law_the_pty_is_transparent(o: Ownership, id: u64, data: Seq<u8>)
    requires
        o.valid(),
        o.pty == Some(id),
    ensures
        o.payload(id, data) == data,
        o.received(id, data) == o,
{
    if o.is_data(id) {
        let k = choose|k: int|
            0 <= k < o.clients.len() && (#[trigger] o.clients[k]).id == id
                && o.clients[k].peer is Some;
        assert(o.pty == Some(o.clients[k].id));
    }
}

/// The PTY client is the default owner: it may transmit as soon as it is there,
/// unless a data connection took the lock. No other client may just by coming in.
pub proof fn law_the_pty_is_the_default_owner(o: Ownership, peer: Seq<char>)
    requires
        o.valid(),
        o.has_room(),
    ensures
        o.bound is None ==> o.joined_by(None).owner() == Some(o.next_client),
        o.bound is Some ==> o.joined_by(None).owner() == o.owner(),
        o.joined_by(Some(peer)).owner() == o.owner(),
        o.joined_by(Some(peer)).owner() != Some(o.next_client),
{
    if o.bound is Some {
        let k = choose|k: int|
            0 <= k < o.clients.len() && (#[trigger] o.clients[k]).id == o.bound->0.client
                && o.clients[k].peer is Some;
        assert(o.clients[k].id < o.next_client);
    } else if o.pty is Some {
        let k = choose|k: int| 0 <= k < o.clients.len() && (#[trigger] o.clients[k]).id == o.pty->0;
        assert(o.clients[k].id < o.next_client);
    }
}

/// A client that goes can never wedge the port. If it held the lock, the lock
/// falls back to the default owner; if not, the owner stays. It owns nothing
/// afterwards.
pub proof fn law_disconnect_releases_the_lock(o: Ownership, id: u64)
    requires
        o.valid(),
    ensures
        o.left_by(id).owner() != Some(id),
        !o.left_by(id).connected(id),
        o.owner() != Some(id) ==> o.left_by(id).owner() == o.owner(),
        o.owner() == Some(id) && o.pty != Some(id) ==> o.left_by(id).owner() == o.pty,
        o.owner() == Some(id) && o.pty == Some(id) ==> o.left_by(id).owner() is None,
{
    lemma_left_by(o, id);
    if o.pty == Some(id) && o.bound is Some {
        lemma_the_bound_client_is_not_the_pty(o);
    }
}

proof fn lemma_the_bound_client_is_not_the_pty(o: Ownership)
    requires
        o.valid(),
        o.bound is Some,
    ensures
        o.pty != Some(o.bound->0.client),
{
    let id = o.bound->0.client;
    let k = choose|k: int|
        0 <= k < o.clients.len() && (#[trigger] o.clients[k]).id == id && o.clients[k].peer is Some;
    assert(o.clients[k].id == id);
}

/// Releasing the owner's token hands the lock back to the default owner, and the
/// token is void. Releasing any other token leaves the owner alone.
pub proof fn law_release_restores_the_default(o: Ownership, token: u64)
    requires
        o.valid(),
    ensures
        o.is_bound(token) ==> o.released(token).owner() == o.pty,
        !o.is_bound(token) ==> o.released(token).owner() == o.owner(),
        !o.released(token).knows(token),
{
    let n = o.released(token);
    lemma_fewer_claims(o, n, |c: Claim| c.token != token);
    if n.is_pending(token) {
        let i = choose|i: int| 0 <= i < n.pending.len() && (#[trigger] n.pending[i]).token == token;
        assert(false);
    }
}

/// Releasing everything that was claimed over a control connection hands the
/// lock back to the default owner if one of those claims holds it, leaves the
/// owner alone if none does, and leaves no claim of that connection standing.
pub proof fn law_release_all_restores_the_default(o: Ownership, control: u64)
    requires
        o.valid(),
    ensures
        o.bound is Some && o.bound->0.claim.control == control ==> o.all_released(control).owner()
            == o.pty,
        o.bound is None || o.bound->0.claim.control != control ==> o.all_released(control).owner()
            == o.owner(),
        !o.all_released(control).has_claims(control),
{
    let n = o.all_released(control);
    let keep = |c: Claim| c.control != control;
    lemma_fewer_claims(o, n, keep);
    assert forall|i: int| 0 <= i < n.pending.len() implies (#[trigger] n.pending[i]).control
        != control by {
        assert(keep(n.pending[i]));
    }
}

/// The lock is taken from a data connection only by one that presents a token
/// which was claimed by force.
pub proof fn law_the_lock_is_stolen_only_by_force(o: Ownership, id: u64, data: Seq<u8>)
    requires
        o.bound is Some,
        o.bound->0.client != id,
        o.received(id, data).owner() != o.owner(),
    ensures
        o.is_data(id),
        o.received(id, data).owner() == Some(id),
        handshake(data) is Some,
        handshake(data)->0.token is Some,
        o.is_pending(handshake(data)->0.token->0),
        o.pending_claim(handshake(data)->0.token->0).force,
{
}

/// While nobody but the default owner has the lock, every claim succeeds with
/// any token that is not in use; a data connection that holds it is protected
/// from a plain claim, and from no other. A claim by itself moves nothing.
pub proof fn law_claims(o: Ownership, control: u64, force: bool, token: u64)
    ensures
        o.bound is None && !o.knows(token) ==> o.claim_result(force, token) is Granted,
        o.claim_result(force, token) is Held <==> o.bound is Some && !force,
        !o.knows(token) ==> o.claim_result(true, token) is Granted,
        o.claimed(Claim { token, control, force }).owner() == o.owner(),
{
}

/// A token that was handed out does what it is for: the data connection that
/// presents it becomes the owner, what it sends along is forwarded without the
/// handshake, and the token cannot be presented again.
pub proof fn law_a_granted_token_takes_the_lock(
    o: Ownership,
    claim: Claim,
    id: u64,
    rest: Seq<u8>,
)
    requires
        o.valid(),
        o.is_data(id),
        o.claim_result(claim.force, claim.token) is Granted,
    ensures
        ({
            let data = encode_utf8("TOKEN "@ + token_text(claim.token) + "\n"@) + rest;
            let n = o.claimed(claim);
            &&& n.received(id, data).owner() == Some(id)
            &&& n.received(id, data).is_bound(claim.token)
            &&& !n.received(id, data).is_pending(claim.token)
            &&& n.verdict(id, data) == (if rest.len() == 0 {
                VerdictView::Nothing
            } else {
                VerdictView::Forward(rest)
            })
        }),
{
    let data = encode_utf8("TOKEN "@ + token_text(claim.token) + "\n"@) + rest;
    let n = o.claimed(claim);
    law_handshake_presents_the_token(claim.token, rest);
    lemma_claimed(o, claim);
    assert(n.is_data(id) == o.is_data(id));
    assert(n.can_take(id, claim.token));
    lemma_presented(n, id, claim.token);
}

/// A handshake on a data connection never reaches the wire, whatever token it
/// presents: only what follows its line feed is meant for the port.
pub proof fn law_a_handshake_never_reaches_the_wire(
    o: Ownership,
    id: u64,
    data: Seq<u8>,
    end: int,
)
    requires
        o.is_data(id),
        is_handshake(data, end),
    ensures
        o.payload(id, data) == data.skip(end + 1),
        o.verdict(id, data) matches VerdictView::Forward(sent) ==> sent == data.skip(end + 1),
{
    lemma_one_handshake(data, choose|e: int| is_handshake(data, e), end);
}

/// A token that nobody was given, or that is no longer pending, moves nothing.
pub proof fn law_an_unknown_token_moves_nothing(o: Ownership, id: u64, token: u64)
    requires
        !o.is_pending(token),
    ensures
        o.presented(id, token) == o,
{
}

/// The lock is never with a client that is gone.
pub proof fn law_the_owner_is_connected(o: Ownership)
    requires
        o.valid(),
        o.owner() is Some,
    ensures
        o.connected(o.owner()->0),
{
    if o.bound is Some {
        let k = choose|k: int|
            0 <= k < o.clients.len() && (#[trigger] o.clients[k]).id == o.bound->0.client
                && o.clients[k].peer is Some;
        assert(o.clients[k].id == o.bound->0.client);
    }
}

/// When a control connection goes, the tokens that it was given and that were
/// not presented are void; all others stand, and so does the owner.
pub proof fn law_closing_a_control_connection_voids_its_tokens(o: Ownership, control: u64)
    requires
        o.valid(),
    ensures
        forall|i: int|
            0 <= i < o.pending.len() && (#[trigger] o.pending[i]).control == control
                ==> !o.control_closed(control).is_pending(o.pending[i].token),
        forall|i: int|
            0 <= i < o.pending.len() && (#[trigger] o.pending[i]).control != control
                ==> o.control_closed(control).is_pending(o.pending[i].token),
        o.control_closed(control).bound == o.bound,
        o.control_closed(control).owner() == o.owner(),
{
    let n = o.control_closed(control);
    let keep = |c: Claim| c.control != control;
    lemma_fewer_claims(o, n, keep);
    assert forall|i: int|
        0 <= i < o.pending.len() && (#[trigger] o.pending[i]).control
            == control implies !n.is_pending(o.pending[i].token) by {
        let token = o.pending[i].token;
        if n.is_pending(token) {
            let k = choose|k: int|
                0 <= k < n.pending.len() && (#[trigger] n.pending[k]).token == token;
            assert(keep(n.pending[k]));
            let j = o.pending.index_of(n.pending[k]);
            assert(o.pending[j].token == token);
            assert(j == i);
        }
    }
    assert forall|i: int|
        0 <= i < o.pending.len() && (#[trigger] o.pending[i]).control
            != control implies n.is_pending(o.pending[i].token) by {
        assert(keep(o.pending[i]));
        let k = n.pending.index_of(o.pending[i]);
        assert(n.pending[k].token == o.pending[i].token);
    }
}

} // verus!
