//! The TX arbiter: it decides whose bytes reach the serial port.
use crate::handshake::{law_handshakes_start_with_the_word, parse_handshake};
use crate::ownership::{
    Binding, Claim, ClaimResult, ClientView, Ownership, VerdictView, lemma_all_released,
    lemma_claimed, lemma_control_closed, lemma_filter_keeps_all, lemma_joined_by, lemma_left_by,
    lemma_presented, lemma_released, name, name_list,
};
use crate::payload::{content, from_text};
use crate::text::{append_decimal, decimal};
use bytes::Bytes;
use vstd::prelude::*;
use vstd::slice::slice_subrange;
use vstd::string::*;
use vstd::utf8::encode_utf8;

verus! {

/// A connected client. The PTY client is the one without a peer.
pub struct Client {
    pub id: u64,
    pub peer: Option<String>,
}

impl View for Client {
    type V = ClientView;

    open spec fn view(&self) -> ClientView {
        ClientView {
            id: self.id,
            peer: match self.peer {
                Some(peer) => Some(peer@),
                None => None,
            },
        }
    }
}

/// What becomes of bytes that a client sends towards the serial port.
pub enum Verdict {
    /// There are none.
    Nothing,
    /// Write them to the port.
    Forward(Bytes),
    /// Drop them, and send the client this notice, if any.
    Drop(Option<Bytes>),
}

impl View for Verdict {
    type V = VerdictView;

    open spec fn view(&self) -> VerdictView {
        match self {
            Verdict::Nothing => VerdictView::Nothing,
            Verdict::Forward(bytes) => VerdictView::Forward(content(*bytes)),
            Verdict::Drop(Some(notice)) => VerdictView::Drop(Some(content(*notice))),
            Verdict::Drop(None) => VerdictView::Drop(None),
        }
    }
}

/// The line that reports the clients and the TX owner.
pub open spec fn status_text(o: Ownership) -> Seq<char> {
    "OK clients: "@ + decimal(o.clients.len()) + " ("@ + name_list(o.clients) + ")  tx-owner: "@
        + o.owner_name() + "\n"@
}

/// The TX lock of the multiplexer.
pub struct Arbiter {
    clients: Vec<Client>,
    pty: Option<u64>,
    bound: Option<Binding>,
    pending: Vec<Claim>,
    next_client: u64,
    next_control: u64,
    notices: bool,
}

spec fn client_views(clients: Seq<Client>) -> Seq<ClientView> {
    clients.map_values(|c: Client| c@)
}

impl View for Arbiter {
    type V = Ownership;

    closed spec fn view(&self) -> Ownership {
        Ownership {
            clients: client_views(self.clients@),
            pty: self.pty,
            bound: self.bound,
            pending: self.pending@,
            next_client: self.next_client,
            next_control: self.next_control,
            notices: self.notices,
        }
    }
}

fn append_name(text: &mut String, client: &Client)
    ensures
        final(text)@ == old(text)@ + name(client@),
{
    let ghost before = text@;
    match &client.peer {
        Some(peer) => {
            text.append("tcp:");
            text.append(peer.as_str());
        },
        None => {
            text.append("pty");
        },
    }
    assert(text@ =~= before + name(client@));
}

/// What a claim can be told by.
enum ClaimKey {
    Token,
    Control,
}

/// What tells the claims that stay when those with `value` for `key` go.
spec fn others(key: ClaimKey, value: u64) -> spec_fn(Claim) -> bool {
    match key {
        ClaimKey::Token => |c: Claim| c.token != value,
        ClaimKey::Control => |c: Claim| c.control != value,
    }
}

/// The claims of `claims` that do not have `value` for `key`.
fn other_claims(claims: &Vec<Claim>, key: ClaimKey, value: u64) -> (r: Vec<Claim>)
    ensures
        r@ == claims@.filter(others(key, value)),
{
    let ghost keep = others(key, value);
    let mut kept: Vec<Claim> = Vec::new();
    let mut i: usize = 0;
    assert(claims@.take(0).filter(keep) =~= Seq::empty()) by {
        reveal(Seq::filter);
    }
    while i < claims.len()
        invariant
            i <= claims@.len(),
            keep == others(key, value),
            kept@ == claims@.take(i as int).filter(keep),
        decreases claims@.len() - i,
    {
        proof {
            reveal(Seq::filter);
            assert(claims@.take(i + 1).drop_last() =~= claims@.take(i as int));
        }
        let claim = claims[i];
        let found: u64 = match key {
            ClaimKey::Token => claim.token,
            ClaimKey::Control => claim.control,
        };
        if found != value {
            kept.push(claim);
        }
        i += 1;
    }
    assert(claims@.take(i as int) =~= claims@);
    kept
}

proof fn lemma_filter_drops_one(s: Seq<ClientView>, keep: spec_fn(ClientView) -> bool, k: int)
    requires
        0 <= k < s.len(),
        !keep(s[k]),
        forall|i: int| 0 <= i < s.len() && i != k ==> keep(#[trigger] s[i]),
    ensures
        s.filter(keep) == s.remove(k),
    decreases s.len(),
{
    reveal(Seq::filter);
    let before = s.drop_last();
    if k == s.len() - 1 {
        lemma_filter_keeps_all(before, keep);
        assert(s.remove(k) =~= before);
    } else {
        lemma_filter_drops_one(before, keep, k);
        assert(before.remove(k).push(s.last()) =~= s.remove(k));
    }
}

impl Arbiter {
    /// The state of the lock is a possible one.
    pub open spec fn wf(&self) -> bool {
        self@.valid()
    }

    /// An arbiter without clients. `notices` says whether a client is told when
    /// its bytes are dropped.
    pub fn new(notices: bool) -> (r: Arbiter)
        ensures
            r.wf(),
            r@ == Ownership::initial(notices),
            r@.clients.len() == 0,
            r@.pty is None,
            r@.bound is None,
            r@.pending.len() == 0,
            r@.next_client < u64::MAX,
            r@.next_control < u64::MAX,
            r@.notices == notices,
    {
        let r = Arbiter {
            clients: Vec::new(),
            pty: None,
            bound: None,
            pending: Vec::new(),
            next_client: 1,
            next_control: 1,
            notices,
        };
        assert(r@ =~= Ownership::initial(notices));
        r
    }

    /// The PTY client comes in, as the default TX owner; its number is
    /// returned. There can be only one, and it needs a free number.
    pub fn join_pty(&mut self) -> (r: Option<u64>)
        requires
            old(self).wf(),
        ensures
            final(self).wf(),
            r is Some <==> old(self)@.pty is None && old(self)@.has_room(),
            r is None ==> final(self)@ == old(self)@,
            r is Some ==> r->0 == old(self)@.next_client && final(self)@ == old(self)@.joined_by(
                None,
            ),
            r is Some <==> old(self)@.pty is None && old(self)@.next_client < u64::MAX,
            r matches Some(id) ==> {
                &&& final(self)@.clients == old(self)@.clients.push(ClientView { id, peer: None })
                &&& final(self)@.pty == Some(id)
                &&& final(self)@.next_client == id + 1
            },
            final(self)@.bound == old(self)@.bound,
            final(self)@.pending == old(self)@.pending,
            final(self)@.next_control == old(self)@.next_control,
            final(self)@.notices == old(self)@.notices,
    {
        if self.pty.is_some() || self.next_client == u64::MAX {
            return None;
        }
        let id: u64 = self.next_client;
        self.clients.push(Client { id, peer: None });
        self.pty = Some(id);
        self.next_client = id + 1;
        proof {
            assert(self@ =~= old(self)@.joined_by(None));
            lemma_joined_by(old(self)@, None);
        }
        Some(id)
    }

    /// A data connection from `peer` comes in; its number is returned, if there
    /// is a free one.
    pub fn join_tcp(&mut self, peer: String) -> (r: Option<u64>)
        requires
            old(self).wf(),
        ensures
            final(self).wf(),
            r is Some <==> old(self)@.has_room(),
            r is None ==> final(self)@ == old(self)@,
            r is Some ==> r->0 == old(self)@.next_client && final(self)@ == old(self)@.joined_by(
                Some(peer@),
            ),
            r is Some <==> old(self)@.next_client < u64::MAX,
            r matches Some(id) ==> {
                &&& final(self)@.clients == old(self)@.clients.push(
                    ClientView { id, peer: Some(peer@) },
                )
                &&& final(self)@.next_client == id + 1
            },
            final(self)@.pty == old(self)@.pty,
            final(self)@.bound == old(self)@.bound,
            final(self)@.pending == old(self)@.pending,
            final(self)@.next_control == old(self)@.next_control,
            final(self)@.notices == old(self)@.notices,
    {
        if self.next_client == u64::MAX {
            return None;
        }
        let id: u64 = self.next_client;
        let client = Client { id, peer: Some(peer) };
        self.clients.push(client);
        self.next_client = id + 1;
        proof {
            assert(client@ =~= ClientView { id, peer: Some(peer@) });
            assert(self@ =~= old(self)@.joined_by(Some(peer@)));
            lemma_joined_by(old(self)@, Some(peer@));
        }
        Some(id)
    }

    /// Where client `id` stands among the clients.
    fn find(&self, id: u64) -> (r: Option<usize>)
        requires
            self.wf(),
        ensures
            match r {
                Some(i) => i < self.clients@.len() && self.clients@[i as int].id == id,
                None => !self@.connected(id),
            },
    {
        let mut i: usize = 0;
        while i < self.clients.len()
            invariant
                i <= self.clients@.len(),
                forall|j: int| 0 <= j < i ==> (#[trigger] self.clients@[j]).id != id,
            decreases self.clients@.len() - i,
        {
            if self.clients[i].id == id {
                return Some(i);
            }
            i += 1;
        }
        proof {
            if self@.connected(id) {
                let k = choose|k: int|
                    0 <= k < self@.clients.len() && (#[trigger] self@.clients[k]).id == id;
                assert(self.clients@[k].id == id);
            }
        }
        None
    }

    /// Client `id` goes. If it held the lock, the lock falls back to the
    /// default owner.
    pub fn leave(&mut self, id: u64)
        requires
            old(self).wf(),
        ensures
            final(self).wf(),
            final(self)@ == old(self)@.left_by(id),
            final(self)@.clients == old(self)@.clients.filter(|c: ClientView| c.id != id),
            final(self)@.pty == (if old(self)@.pty == Some(id) {
                None
            } else {
                old(self)@.pty
            }),
            final(self)@.bound == (match old(self)@.bound {
                Some(binding) => if binding.client == id {
                    None
                } else {
                    Some(binding)
                },
                None => None,
            }),
            final(self)@.pending == old(self)@.pending,
            final(self)@.next_client == old(self)@.next_client,
            final(self)@.next_control == old(self)@.next_control,
            final(self)@.notices == old(self)@.notices,
    {
        let ghost keep = |c: ClientView| c.id != id;
        match self.find(id) {
            Some(i) => {
                self.clients.remove(i);
                proof {
                    let views = old(self)@.clients;
                    assert(views[i as int].id == id);
                    lemma_filter_drops_one(views, keep, i as int);
                    assert(self@.clients =~= views.remove(i as int));
                }
            },
            None => {
                proof {
                    lemma_filter_keeps_all(old(self)@.clients, keep);
                }
            },
        }
        if self.pty == Some(id) {
            self.pty = None;
        }
        if let Some(binding) = self.bound {
            if binding.client == id {
                self.bound = None;
            }
        }
        proof {
            assert(self@ =~= old(self)@.left_by(id));
            lemma_left_by(old(self)@, id);
        }
    }

    /// A control connection comes in; its number is returned, if there is a
    /// free one.
    pub fn open_control(&mut self) -> (r: Option<u64>)
        requires
            old(self).wf(),
        ensures
            final(self).wf(),
            r is Some <==> old(self)@.next_control < u64::MAX,
            r is None ==> final(self)@ == old(self)@,
            r is Some ==> r->0 == old(self)@.next_control && final(self)@
                == old(self)@.control_opened(),
            r is Some ==> final(self)@.next_control == r->0 + 1,
            final(self)@.clients == old(self)@.clients,
            final(self)@.pty == old(self)@.pty,
            final(self)@.bound == old(self)@.bound,
            final(self)@.pending == old(self)@.pending,
            final(self)@.next_client == old(self)@.next_client,
            final(self)@.notices == old(self)@.notices,
    {
        if self.next_control == u64::MAX {
            return None;
        }
        let control: u64 = self.next_control;
        self.next_control = control + 1;
        proof {
            assert(self@ =~= old(self)@.control_opened());
            let o = old(self)@;
            assert(forall|id: u64| #[trigger] self@.connected(id) == o.connected(id));
            assert(forall|id: u64| #[trigger] self@.is_data(id) == o.is_data(id));
            assert(forall|t: u64| #[trigger] self@.is_pending(t) == o.is_pending(t));
        }
        Some(control)
    }

    /// Control connection `control` goes. The tokens that it was given and that
    /// were not presented are void.
    pub fn close_control(&mut self, control: u64)
        requires
            old(self).wf(),
        ensures
            final(self).wf(),
            final(self)@ == old(self)@.control_closed(control),
            final(self)@.pending == old(self)@.pending.filter(|c: Claim| c.control != control),
            final(self)@.clients == old(self)@.clients,
            final(self)@.pty == old(self)@.pty,
            final(self)@.bound == old(self)@.bound,
            final(self)@.next_client == old(self)@.next_client,
            final(self)@.next_control == old(self)@.next_control,
            final(self)@.notices == old(self)@.notices,
    {
        self.pending = other_claims(&self.pending, ClaimKey::Control, control);
        proof {
            assert(self@ =~= old(self)@.control_closed(control));
            lemma_control_closed(old(self)@, control);
        }
    }

    /// Where the claim for `token` stands among the pending ones.
    fn find_pending(&self, token: u64) -> (r: Option<usize>)
        requires
            self.wf(),
        ensures
            match r {
                Some(i) => {
                    &&& i < self.pending@.len()
                    &&& self.pending@[i as int].token == token
                    &&& self@.is_pending(token)
                    &&& self@.pending_claim(token) == self.pending@[i as int]
                },
                None => !self@.is_pending(token),
            },
    {
        let mut i: usize = 0;
        while i < self.pending.len()
            invariant
                i <= self.pending@.len(),
                self.wf(),
                forall|j: int| 0 <= j < i ==> (#[trigger] self.pending@[j]).token != token,
            decreases self.pending@.len() - i,
        {
            if self.pending[i].token == token {
                proof {
                    let pending = self@.pending;
                    assert(pending[i as int].token == token);
                    let k = choose|k: int|
                        0 <= k < pending.len() && (#[trigger] pending[k]).token == token;
                    assert(k == i);
                }
                return Some(i);
            }
            i += 1;
        }
        None
    }

    /// Whether `token` is that of the connection which holds the lock.
    fn bound_to(&self, token: u64) -> (r: bool)
        ensures
            r == self@.is_bound(token),
    {
        match self.bound {
            Some(binding) => binding.claim.token == token,
            None => false,
        }
    }

    /// Control connection `control` asks for the lock. `token` is handed out
    /// for it, unless a data connection holds the lock and `force` is not set,
    /// or the token is in use.
    pub fn claim(&mut self, control: u64, force: bool, token: u64) -> (r: ClaimResult)
        requires
            old(self).wf(),
        ensures
            final(self).wf(),
            r == old(self)@.claim_result(force, token),
            final(self)@ == (if r is Granted {
                old(self)@.claimed(Claim { token, control, force })
            } else {
                old(self)@
            }),
            r is Held <==> old(self)@.bound is Some && !force,
            r is Taken <==> (old(self)@.bound is None || force) && ((old(self)@.bound is Some
                && old(self)@.bound->0.claim.token == token) || exists|i: int|
                0 <= i < old(self)@.pending.len() && (#[trigger] old(self)@.pending[i]).token
                    == token),
            final(self)@.pending == (if r is Granted {
                old(self)@.pending.push(Claim { token, control, force })
            } else {
                old(self)@.pending
            }),
            final(self)@.clients == old(self)@.clients,
            final(self)@.pty == old(self)@.pty,
            final(self)@.bound == old(self)@.bound,
            final(self)@.next_client == old(self)@.next_client,
            final(self)@.next_control == old(self)@.next_control,
            final(self)@.notices == old(self)@.notices,
    {
        if self.bound.is_some() && !force {
            return ClaimResult::Held;
        }
        if self.find_pending(token).is_some() || self.bound_to(token) {
            return ClaimResult::Taken;
        }
        let claim = Claim { token, control, force };
        self.pending.push(claim);
        proof {
            assert(self@ =~= old(self)@.claimed(claim));
            lemma_claimed(old(self)@, claim);
        }
        ClaimResult::Granted
    }

    /// The claim with this token is given up, presented or not. Tells whether
    /// there was one.
    pub fn release(&mut self, token: u64) -> (r: bool)
        requires
            old(self).wf(),
        ensures
            final(self).wf(),
            r == old(self)@.knows(token),
            final(self)@ == old(self)@.released(token),
            r <==> (old(self)@.bound matches Some(binding) && binding.claim.token == token) || exists|
                i: int,
            |
                0 <= i < old(self)@.pending.len() && (#[trigger] old(self)@.pending[i]).token
                    == token,
            final(self)@.bound == (match old(self)@.bound {
                Some(binding) => if binding.claim.token == token {
                    None
                } else {
                    Some(binding)
                },
                None => None,
            }),
            final(self)@.pending == old(self)@.pending.filter(|c: Claim| c.token != token),
            final(self)@.clients == old(self)@.clients,
            final(self)@.pty == old(self)@.pty,
            final(self)@.next_client == old(self)@.next_client,
            final(self)@.next_control == old(self)@.next_control,
            final(self)@.notices == old(self)@.notices,
    {
        let bound: bool = self.bound_to(token);
        let pending: bool = self.find_pending(token).is_some();
        self.pending = other_claims(&self.pending, ClaimKey::Token, token);
        if bound {
            self.bound = None;
        }
        proof {
            assert(self@ =~= old(self)@.released(token));
            lemma_released(old(self)@, token);
        }
        bound || pending
    }

    /// All claims that control connection `control` was given are given up.
    /// Tells whether there were any.
    pub fn release_all(&mut self, control: u64) -> (r: bool)
        requires
            old(self).wf(),
        ensures
            final(self).wf(),
            r == old(self)@.has_claims(control),
            final(self)@ == old(self)@.all_released(control),
            r <==> (old(self)@.bound matches Some(binding) && binding.claim.control == control)
                || exists|i: int|
                0 <= i < old(self)@.pending.len() && (#[trigger] old(self)@.pending[i]).control
                    == control,
            final(self)@.bound == (match old(self)@.bound {
                Some(binding) => if binding.claim.control == control {
                    None
                } else {
                    Some(binding)
                },
                None => None,
            }),
            final(self)@.pending == old(self)@.pending.filter(|c: Claim| c.control != control),
            final(self)@.clients == old(self)@.clients,
            final(self)@.pty == old(self)@.pty,
            final(self)@.next_client == old(self)@.next_client,
            final(self)@.next_control == old(self)@.next_control,
            final(self)@.notices == old(self)@.notices,
    {
        let mut found: bool = false;
        let mut i: usize = 0;
        while i < self.pending.len()
            invariant
                i <= self.pending@.len(),
                found == exists|j: int|
                    0 <= j < i && (#[trigger] self.pending@[j]).control == control,
            decreases self.pending@.len() - i,
        {
            if self.pending[i].control == control {
                found = true;
            }
            i += 1;
        }
        assert(found == exists|j: int|
            0 <= j < self@.pending.len() && (#[trigger] self@.pending[j]).control == control);
        let bound: bool = match self.bound {
            Some(binding) => binding.claim.control == control,
            None => false,
        };
        self.pending = other_claims(&self.pending, ClaimKey::Control, control);
        if bound {
            self.bound = None;
        }
        proof {
            assert(self@ =~= old(self)@.all_released(control));
            lemma_all_released(old(self)@, control);
        }
        found || bound
    }

    /// Whether `id` is a connected data connection.
    fn on_data_port(&self, id: u64) -> (r: bool)
        requires
            self.wf(),
        ensures
            r == self@.is_data(id),
    {
        match self.find(id) {
            Some(i) => {
                let data: bool = self.clients[i].peer.is_some();
                proof {
                    let o = self@;
                    assert(o.clients[i as int].id == id);
                    if o.is_data(id) {
                        let k = choose|k: int|
                            0 <= k < o.clients.len() && (#[trigger] o.clients[k]).id == id
                                && o.clients[k].peer is Some;
                        assert(k == i);
                    }
                }
                data
            },
            None => {
                proof {
                    if self@.is_data(id) {
                        let k = choose|k: int|
                            0 <= k < self@.clients.len() && (#[trigger] self@.clients[k]).id == id
                                && self@.clients[k].peer is Some;
                        assert(self@.connected(id));
                    }
                }
                false
            },
        }
    }

    /// Client `id` presents `token`. Tells whether it took the lock by that.
    pub fn present(&mut self, id: u64, token: u64) -> (r: bool)
        requires
            old(self).wf(),
        ensures
            final(self).wf(),
            r == old(self)@.can_take(id, token),
            final(self)@ == old(self)@.presented(id, token),
            !r ==> final(self)@ == old(self)@,
            r ==> {
                &&& final(self)@.bound is Some
                &&& final(self)@.bound->0.client == id
                &&& final(self)@.bound->0.claim.token == token
                &&& old(self)@.pending.contains(final(self)@.bound->0.claim)
                &&& final(self)@.pending == old(self)@.pending.filter(|c: Claim| c.token != token)
                &&& exists|i: int|
                    0 <= i < old(self)@.clients.len() && (#[trigger] old(self)@.clients[i]).id == id
                        && old(self)@.clients[i].peer is Some
            },
            final(self)@.clients == old(self)@.clients,
            final(self)@.pty == old(self)@.pty,
            final(self)@.next_client == old(self)@.next_client,
            final(self)@.next_control == old(self)@.next_control,
            final(self)@.notices == old(self)@.notices,
    {
        proof {
            lemma_presented(old(self)@, id, token);
        }
        if !self.on_data_port(id) {
            return false;
        }
        match self.find_pending(token) {
            Some(i) => {
                let claim = self.pending[i];
                let blocked: bool = match self.bound {
                    Some(binding) => !claim.force && binding.client != id,
                    None => false,
                };
                if blocked {
                    return false;
                }
                self.pending = other_claims(&self.pending, ClaimKey::Token, token);
                self.bound = Some(Binding { client: id, claim });
                assert(self@ =~= old(self)@.presented(id, token));
                true
            },
            None => false,
        }
    }

    /// The client that may transmit.
    pub fn owner(&self) -> (r: Option<u64>)
        ensures
            r == self@.owner(),
            self@.bound matches Some(binding) ==> r == Some(binding.client),
            self@.bound is None ==> r == self@.pty,
    {
        match self.bound {
            Some(binding) => Some(binding.client),
            None => self.pty,
        }
    }

    /// Client `id` sends `data` towards the serial port. On a data connection, a
    /// handshake at its start is taken out and presents its token. The rest is
    /// forwarded if the client then holds the lock.
    pub fn receive(&mut self, id: u64, data: &[u8]) -> (r: Verdict)
        requires
            old(self).wf(),
        ensures
            final(self).wf(),
            final(self)@ == old(self)@.received(id, data@),
            r@ == old(self)@.verdict(id, data@),
            (data@.len() < 8 || data@[0] != 'T' as u8 || data@[1] != 'O' as u8 || data@[2]
                != 'K' as u8 || data@[3] != 'E' as u8 || data@[4] != 'N' as u8 || data@[5]
                != ' ' as u8) ==> {
                let owner = match old(self)@.bound {
                    Some(binding) => Some(binding.client),
                    None => old(self)@.pty,
                };
                &&& final(self)@ == old(self)@
                &&& data@.len() == 0 ==> r@ is Nothing
                &&& data@.len() > 0 && owner == Some(id) ==> r@ == VerdictView::Forward(data@)
                &&& data@.len() > 0 && owner != Some(id) ==> r@ is Drop
            },
            r@ matches VerdictView::Forward(sent) ==> {
                &&& sent.len() > 0
                &&& sent.is_suffix_of(data@)
                &&& final(self)@.bound matches Some(binding) ==> binding.client == id
                &&& final(self)@.bound is None ==> final(self)@.pty == Some(id)
            },
            r@ matches VerdictView::Drop(notice) ==> (notice is Some <==> old(self)@.notices),
            final(self)@.clients == old(self)@.clients,
            final(self)@.pty == old(self)@.pty,
            final(self)@.next_client == old(self)@.next_client,
            final(self)@.next_control == old(self)@.next_control,
            final(self)@.notices == old(self)@.notices,
    {
        proof {
            law_handshakes_start_with_the_word(data@);
        }
        let mut start: usize = 0;
        if self.on_data_port(id) {
            if let Some(h) = parse_handshake(data) {
                if let Some(token) = h.token {
                    self.present(id, token);
                }
                start = h.len;
            }
        }
        let rest = slice_subrange(data, start, data.len());
        assert(rest@ =~= data@.skip(start as int));
        assert(data@.skip(0) =~= data@);
        if rest.len() == 0 {
            Verdict::Nothing
        } else if self.owner() == Some(id) {
            Verdict::Forward(Bytes::copy_from_slice(rest))
        } else {
            self.denial()
        }
    }

    /// What becomes of bytes that are dropped.
    fn denial(&self) -> (r: Verdict)
        ensures
            r@ == self@.denial(),
    {
        if self.notices {
            let notice = "\r\n*** sermuxd: TX denied, another client holds the port ***\r\n";
            Verdict::Drop(Some(from_text(notice.to_owned())))
        } else {
            Verdict::Drop(None)
        }
    }

    /// Decides once more about bytes of client `id` that had to wait for room in
    /// the queue to the serial port: the lock may have changed hands meanwhile.
    pub fn settle(&self, id: u64, payload: Bytes) -> (r: Verdict)
        ensures
            r@ == self@.settled(id, content(payload)),
            content(payload).len() == 0 ==> r@ is Nothing,
            content(payload).len() > 0 ==> {
                let owner = match self@.bound {
                    Some(binding) => Some(binding.client),
                    None => self@.pty,
                };
                &&& owner == Some(id) ==> r@ == VerdictView::Forward(content(payload))
                &&& owner != Some(id) && self@.notices ==> r@ == VerdictView::Drop(
                    Some(
                        encode_utf8(
                            "\r\n*** sermuxd: TX denied, another client holds the port ***\r\n"@,
                        ),
                    ),
                )
                &&& owner != Some(id) && !self@.notices ==> r@ == VerdictView::Drop(None)
            },
    {
        if payload.len() == 0 {
            Verdict::Nothing
        } else if self.owner() == Some(id) {
            Verdict::Forward(payload)
        } else {
            self.denial()
        }
    }

    /// The name of the client that may transmit, `none` if there is none.
    pub fn owner_name(&self) -> (r: String)
        requires
            self.wf(),
        ensures
            r@ == self@.owner_name(),
            self@.bound is None && self@.pty is None ==> r@ == "none"@,
            forall|i: int|
                0 <= i < self@.clients.len() && (match self@.bound {
                    Some(binding) => Some(binding.client),
                    None => self@.pty,
                }) == Some((#[trigger] self@.clients[i]).id) ==> r@ == (
                match self@.clients[i].peer {
                    Some(peer) => "tcp:"@ + peer,
                    None => "pty"@,
                }),
    {
        let mut text = String::new();
        if let Some(id) = self.owner() {
            if let Some(i) = self.find(id) {
                append_name(&mut text, &self.clients[i]);
                proof {
                    let o = self@;
                    assert(o.clients[i as int].id == id);
                    let k = choose|k: int|
                        0 <= k < o.clients.len() && (#[trigger] o.clients[k]).id == id;
                    assert(k == i);
                    assert(o.clients[i as int] == self.clients@[i as int]@);
                    assert(text@ =~= o.name_of(id));
                }
                return text;
            }
        }
        proof {
            let o = self@;
            if o.bound is Some {
                let k = choose|k: int|
                    0 <= k < o.clients.len() && (#[trigger] o.clients[k]).id == o.bound->0.client
                        && o.clients[k].peer is Some;
                assert(o.connected(o.bound->0.client));
            }
            assert(o.owner() is None);
        }
        text.append("none");
        assert(text@ =~= "none"@);
        text
    }

    /// The line that reports the clients and the TX owner.
    pub fn status(&self) -> (r: String)
        requires
            self.wf(),
        ensures
            r@ == status_text(self@),
            r@ == "OK clients: "@ + decimal(self@.clients.len()) + " ("@ + name_list(self@.clients)
                + ")  tx-owner: "@ + self@.owner_name() + "\n"@,
    {
        let mut text = String::new();
        text.append("OK clients: ");
        append_decimal(&mut text, self.clients.len() as u64);
        text.append(" (");
        let ghost head = text@;
        let ghost views = self@.clients;
        let mut i: usize = 0;
        assert(text@ =~= head + name_list(views.take(0)));
        while i < self.clients.len()
            invariant
                i <= self.clients@.len(),
                views == client_views(self.clients@),
                text@ == head + name_list(views.take(i as int)),
            decreases self.clients@.len() - i,
        {
            let ghost so_far = text@;
            if i > 0 {
                text.append(", ");
            }
            append_name(&mut text, &self.clients[i]);
            proof {
                assert(views.take(i + 1).drop_last() =~= views.take(i as int));
                assert(views.take(i + 1).last() == self.clients@[i as int]@);
                assert(text@ =~= head + name_list(views.take(i + 1)));
            }
            i += 1;
        }
        assert(views.take(i as int) =~= views);
        text.append(")  tx-owner: ");
        text.append(self.owner_name().as_str());
        text.append("\n");
        assert(text@ =~= status_text(self@));
        text
    }
}

/// What is proved of verdicts and clients is meant of their own variants and
/// fields.
pub proof fn law_verdicts_and_clients_are_what_they_show(verdict: Verdict, client: Client)
    ensures
        verdict is Nothing <==> verdict@ is Nothing,
        verdict is Forward <==> verdict@ is Forward,
        verdict is Drop <==> verdict@ is Drop,
        verdict matches Verdict::Forward(bytes) ==> verdict@ == VerdictView::Forward(
            content(bytes),
        ),
        verdict matches Verdict::Drop(Some(notice)) ==> verdict@ == VerdictView::Drop(
            Some(content(notice)),
        ),
        verdict matches Verdict::Drop(None) ==> verdict@ == VerdictView::Drop(None),
        client@.id == client.id,
        client.peer matches Some(peer) ==> client@.peer == Some(peer@),
        client.peer is None ==> client@.peer is None,
{
}

} // verus!
