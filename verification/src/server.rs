//! The server session registry: the authoritative mapping from connection
//! identity to chosen nickname, with the broadcast each operation owes.
//!
//! Every operation is specified as an exact state transition (`step`) and an
//! exact output sequence (`event_sends`); the laws about replays, snapshots
//! and ordering are proved over those two functions.

use vstd::prelude::*;

use crate::messages::nicks_view;
use crate::messages::send_view;
use crate::messages::sends_view;
use crate::messages::OutSend;
use crate::messages::ServerMessages;
use crate::messages::SrvMsgView;
use crate::model::has_key;
use crate::model::key_at;
use crate::model::lemma_remove_addr_absent;
use crate::model::lemma_remove_addr_at_first_match;
use crate::model::lemma_remove_addr_has;
use crate::model::lemma_remove_addr_membership;
use crate::model::lemma_remove_at_first_match;
use crate::model::lemma_remove_key_absent;
use crate::model::lemma_key_at_unique;
use crate::model::lemma_remove_key_has;
use crate::model::lemma_remove_key_membership;
use crate::model::lemma_remove_key_uniq;
use crate::model::nick_of;
use crate::model::remove_addr;
use crate::model::remove_key;
use crate::model::uniq_addrs;
use crate::model::uniq_keys;
use crate::model::Addr;
use crate::model::DisconnectReason;
use crate::model::NickSeq;

verus! {

/// One input that the transport can hand the registry within a tick.
#[derive(Debug, Clone, PartialEq, Eq)]
pub enum ServerEvent {
    /// A transport-level connection was established.
    Connect(Addr),
    /// The peer sent `Init{nick}`.
    Init(Addr, String),
    /// The peer sent `Text(body)`.
    Message(Addr, String),
    /// The transport reported the connection lost or closed.
    Disconnect(Addr, DisconnectReason),
}

/// The mathematical view of a `ServerEvent`.
pub enum EventView {
    Connect { addr: Addr },
    Init { addr: Addr, nick: Seq<char> },
    Message { addr: Addr, body: Seq<char> },
    Disconnect { addr: Addr, reason: DisconnectReason },
}

impl View for ServerEvent {
    type V = EventView;

    open spec fn view(&self) -> EventView {
        match self {
            ServerEvent::Connect(a) => (EventView::Connect { addr: *a }),
            ServerEvent::Init(a, nick) => (EventView::Init { addr: *a, nick: nick@ }),
            ServerEvent::Message(a, body) => (EventView::Message { addr: *a, body: body@ }),
            ServerEvent::Disconnect(a, reason) => (EventView::Disconnect {
                addr: *a,
                reason: *reason,
            }),
        }
    }
}

/// The abstract state of the server: the transport-connected addresses, and
/// the registry of initialized clients.
#[verifier::ext_equal]
pub struct RegistryView {
    /// Addresses with an established transport connection.
    pub connected: Seq<Addr>,
    /// The registry proper: initialized clients in order of initialization.
    pub clients: NickSeq,
}

/// Well-formedness: distinct connections, distinct registry entries, and
/// every registered client still connected.
pub open spec fn reg_wf(r: RegistryView) -> bool {
    &&& uniq_addrs(r.connected)
    &&& uniq_keys(r.clients)
    &&& forall|a: Addr| #[trigger] has_key(r.clients, a) ==> r.connected.contains(a)
}

/// An `Init` from `a` is accepted exactly when `a` is connected and not yet
/// registered (a duplicate `Init` is ignored).
pub open spec fn init_accepted(r: RegistryView, a: Addr) -> bool {
    r.connected.contains(a) && !has_key(r.clients, a)
}

/// The exact state transition of one event.
pub open spec fn step(r: RegistryView, e: EventView) -> RegistryView {
    match e {
        EventView::Connect { addr } => {
            if r.connected.contains(addr) {
                r
            } else {
                RegistryView { connected: r.connected.push(addr), clients: r.clients }
            }
        },
        EventView::Init { addr, nick } => {
            if init_accepted(r, addr) {
                RegistryView { connected: r.connected, clients: r.clients.push((addr, nick)) }
            } else {
                r
            }
        },
        EventView::Message { .. } => r,
        EventView::Disconnect { addr, .. } => (RegistryView {
            connected: remove_addr(r.connected, addr),
            clients: remove_key(r.clients, addr),
        }),
    }
}

/// One copy of `m` addressed to every client of `clients`, in registry order.
pub open spec fn to_all(clients: NickSeq, m: SrvMsgView) -> Seq<(Addr, SrvMsgView)> {
    clients.map_values(|p: (Addr, Seq<char>)| (p.0, m))
}

/// The exact output sequence of one event: which message goes to which peer,
/// in emission order.
pub open spec fn event_sends(r: RegistryView, e: EventView) -> Seq<(Addr, SrvMsgView)> {
    match e {
        EventView::Connect { .. } => Seq::empty(),
        EventView::Init { addr, nick } => {
            if init_accepted(r, addr) {
                to_all(r.clients, SrvMsgView::Connected { addr, nick }) + seq![
                    (addr, SrvMsgView::Snapshot { clients: r.clients.push((addr, nick)) }),
                ]
            } else {
                Seq::empty()
            }
        },
        EventView::Message { addr, body } => {
            if has_key(r.clients, addr) {
                to_all(r.clients, SrvMsgView::Message { addr, body })
            } else {
                Seq::empty()
            }
        },
        EventView::Disconnect { addr, reason } => {
            if has_key(r.clients, addr) {
                to_all(remove_key(r.clients, addr), SrvMsgView::Disconnected { addr, reason })
            } else {
                Seq::empty()
            }
        },
    }
}

/// The server session registry.
pub struct Registry {
    connected: Vec<Addr>,
    clients: Vec<(Addr, String)>,
}

impl View for Registry {
    type V = RegistryView;

    closed spec fn view(&self) -> RegistryView {
        RegistryView { connected: self.connected@, clients: nicks_view(self.clients@) }
    }
}

/// The position of the first element equal to `a`, if any.
fn find_addr(v: &Vec<Addr>, a: Addr) -> (r: Option<usize>)
    ensures
        match r {
            Some(i) => i < v@.len() && v@[i as int] == a && forall|j: int|
                0 <= j < i ==> v@[j] != a,
            None => forall|j: int| 0 <= j < v@.len() ==> v@[j] != a,
        },
{
    let mut i: usize = 0;
    while i < v.len()
        invariant
            i <= v@.len(),
            forall|j: int| 0 <= j < i ==> v@[j] != a,
        decreases v@.len() - i,
    {
        if v[i] == a {
            return Some(i);
        }
        i += 1;
    }
    None
}

/// The position of the first entry keyed by `a`, if any.
fn find_client(v: &Vec<(Addr, String)>, a: Addr) -> (r: Option<usize>)
    ensures
        match r {
            Some(i) => i < v@.len() && v@[i as int].0 == a && forall|j: int|
                0 <= j < i ==> (#[trigger] v@[j]).0 != a,
            None => forall|j: int| 0 <= j < v@.len() ==> (#[trigger] v@[j]).0 != a,
        },
{
    let mut i: usize = 0;
    while i < v.len()
        invariant
            i <= v@.len(),
            forall|j: int| 0 <= j < i ==> (#[trigger] v@[j]).0 != a,
        decreases v@.len() - i,
    {
        if v[i].0 == a {
            return Some(i);
        }
        i += 1;
    }
    None
}

impl Registry {
    /// Well-formedness of the registry's abstract state.
    pub open spec fn wf(&self) -> bool {
        reg_wf(self@)
    }

    /// An empty registry: nobody connected, nobody registered.
    pub fn new() -> (r: Registry)
        ensures
            r.wf(),
            r@.connected =~= Seq::<Addr>::empty(),
            r@.clients =~= Seq::<(Addr, Seq<char>)>::empty(),
    {
        let r = Registry { connected: Vec::new(), clients: Vec::new() };
        proof {
            assert(r@.clients =~= Seq::<(Addr, Seq<char>)>::empty());
        }
        r
    }

    /// Records a pending (un-initialized) connection; produces no broadcast.
    /// A repeated `Connect` from the same address is a no-op.
    pub fn on_connect(&mut self, a: Addr)
        requires
            old(self).wf(),
        ensures
            final(self).wf(),
            final(self)@ == step(old(self)@, EventView::Connect { addr: a }),
    {
        let present = find_addr(&self.connected, a);
        if present.is_none() {
            proof {
                assert(!old(self)@.connected.contains(a));
            }
            self.connected.push(a);
            proof {
                let s = old(self)@.connected;
                assert forall|i: int, j: int| 0 <= i < j < s.push(a).len() implies
                    s.push(a)[i] != s.push(a)[j] by {
                    if j < s.len() {
                        assert(s.push(a)[i] == s[i]);
                        assert(s.push(a)[j] == s[j]);
                    } else {
                        assert(s.push(a)[j] == a);
                        assert(s.push(a)[i] == s[i]);
                        assert(!s.contains(a));
                    }
                }
                assert forall|b: Addr| #[trigger] has_key(final(self)@.clients, b) implies
                    final(self)@.connected.contains(b) by {
                    assert(has_key(old(self)@.clients, b));
                    let k = choose|k: int|
                        0 <= k < s.len() && s[k] == b;
                    assert(s.push(a)[k] == b);
                }
                assert(final(self)@ =~= step(old(self)@, EventView::Connect { addr: a }));
            }
        } else {
            proof {
                let i = present.unwrap();
                assert(old(self)@.connected.contains(a));
                assert(final(self)@ =~= step(old(self)@, EventView::Connect { addr: a }));
            }
        }
    }

    /// Wraps a chat line from `a` as `ClientMessage(a, body)` and broadcasts
    /// it to all registered peers, in registry order. A message from an
    /// address that is not a fully initialized peer is dropped: it produces
    /// zero sends.
    pub fn on_message(&self, a: Addr, body: String) -> (sends: Vec<OutSend>)
        requires
            self.wf(),
        ensures
            sends_view(sends@) == event_sends(
                self@,
                EventView::Message { addr: a, body: body@ },
            ),
            !has_key(self@.clients, a) ==> sends@.len() == 0,
    {
        let mut sends: Vec<OutSend> = Vec::new();
        let present = find_client(&self.clients, a);
        match present {
            Some(at) => {
                proof {
                    assert(self@.clients[at as int].0 == a);
                    assert(has_key(self@.clients, a));
                }
                let ghost cl = self@.clients;
                let ghost m = SrvMsgView::Message { addr: a, body: body@ };
                let mut i: usize = 0;
                while i < self.clients.len()
                    invariant
                        i <= self.clients@.len(),
                        cl == self@.clients,
                        sends_view(sends@) == to_all(cl.take(i as int), m),
                        m == (SrvMsgView::Message { addr: a, body: body@ }),
                    decreases self.clients@.len() - i,
                {
                    let ghost prev = sends@;
                    proof {
                        assert(sends_view(prev) == to_all(cl.take(i as int), m));
                        assert(sends_view(prev).len() == prev.len());
                        assert(to_all(cl.take(i as int), m).len() == i as int);
                        assert(prev.len() == i as int);
                    }
                    let dest = self.clients[i].0;
                    let msg = ServerMessages::ClientMessage(a, body.clone());
                    proof {
                        assert(msg@ == m);
                        assert(dest == cl[i as int].0);
                    }
                    sends.push((dest, msg));
                    i += 1;
                    proof {
                        let n = i as int;
                        assert forall|k: int| 0 <= k < n implies
                            sends_view(sends@)[k] == to_all(cl.take(n), m)[k] by {
                            if k < n - 1 {
                                assert(sends@[k] == prev[k]);
                                assert(sends_view(prev)[k] == to_all(cl.take(n - 1), m)[k]);
                            } else {
                                assert(send_view(sends@[k]) == (cl[k].0, m));
                            }
                        }
                        assert(sends_view(sends@) =~= to_all(cl.take(n), m));
                    }
                }
                proof {
                    assert(cl.take(self.clients@.len() as int) =~= cl);
                }
            },
            None => {
                proof {
                    assert forall|j: int| 0 <= j < self@.clients.len() implies
                        (#[trigger] self@.clients[j]).0 != a by {
                        assert(self@.clients[j].0 == self.clients@[j].0);
                    }
                    assert(!has_key(self@.clients, a));
                    assert(sends_view(sends@) =~= Seq::<(Addr, SrvMsgView)>::empty());
                }
            },
        }
        sends
    }

    /// Handles `Init{nick}` from `a`. When `a` is connected and not yet
    /// registered, inserts `(a, nick)`, broadcasts `ClientConnected(a, nick)`
    /// to every other registered peer, and sends `a` alone the full registry
    /// snapshot including its own new entry; the insertion happens before
    /// both sends. An `Init` from an unknown address, or a duplicate `Init`,
    /// is dropped.
    pub fn on_init(&mut self, a: Addr, nick: String) -> (sends: Vec<OutSend>)
        requires
            old(self).wf(),
        ensures
            final(self).wf(),
            final(self)@ == step(old(self)@, EventView::Init { addr: a, nick: nick@ }),
            sends_view(sends@) == event_sends(
                old(self)@,
                EventView::Init { addr: a, nick: nick@ },
            ),
    {
        let ghost e = EventView::Init { addr: a, nick: nick@ };
        let mut sends: Vec<OutSend> = Vec::new();
        let connected = find_addr(&self.connected, a);
        let existing = find_client(&self.clients, a);
        match (connected, existing) {
            (Some(_), None) => {
                proof {
                    assert(old(self)@.connected.contains(a));
                    assert forall|j: int| 0 <= j < old(self)@.clients.len() implies
                        (#[trigger] old(self)@.clients[j]).0 != a by {
                        assert(old(self)@.clients[j].0 == old(self).clients@[j].0);
                    }
                    assert(!has_key(old(self)@.clients, a));
                    assert(init_accepted(old(self)@, a));
                }
                let ghost cl = old(self)@.clients;
                let ghost m = SrvMsgView::Connected { addr: a, nick: nick@ };
                let mut i: usize = 0;
                while i < self.clients.len()
                    invariant
                        i <= self.clients@.len(),
                        self == old(self),
                        cl == old(self)@.clients,
                        sends_view(sends@) == to_all(cl.take(i as int), m),
                        m == (SrvMsgView::Connected { addr: a, nick: nick@ }),
                    decreases self.clients@.len() - i,
                {
                    let ghost prev = sends@;
                    proof {
                        assert(sends_view(prev) == to_all(cl.take(i as int), m));
                        assert(sends_view(prev).len() == prev.len());
                        assert(to_all(cl.take(i as int), m).len() == i as int);
                        assert(prev.len() == i as int);
                    }
                    let dest = self.clients[i].0;
                    let msg = ServerMessages::ClientConnected(a, nick.clone());
                    proof {
                        assert(msg@ == m);
                        assert(dest == cl[i as int].0);
                    }
                    sends.push((dest, msg));
                    i += 1;
                    proof {
                        let n = i as int;
                        assert forall|k: int| 0 <= k < n implies
                            sends_view(sends@)[k] == to_all(cl.take(n), m)[k] by {
                            if k < n - 1 {
                                assert(sends@[k] == prev[k]);
                                assert(sends_view(prev)[k] == to_all(cl.take(n - 1), m)[k]);
                            } else {
                                assert(send_view(sends@[k]) == (cl[k].0, m));
                            }
                        }
                        assert(sends_view(sends@) =~= to_all(cl.take(n), m));
                    }
                }
                proof {
                    assert(cl.take(self.clients@.len() as int) =~= cl);
                }
                let mut snapshot: Vec<(Addr, String)> = Vec::new();
                let mut j: usize = 0;
                while j < self.clients.len()
                    invariant
                        j <= self.clients@.len(),
                        self == old(self),
                        cl == old(self)@.clients,
                        nicks_view(snapshot@) == cl.take(j as int),
                    decreases self.clients@.len() - j,
                {
                    let ghost prev = snapshot@;
                    proof {
                        assert(nicks_view(prev) == cl.take(j as int));
                        assert(nicks_view(prev).len() == prev.len());
                        assert(prev.len() == j as int);
                    }
                    let dest = self.clients[j].0;
                    let dest_nick = self.clients[j].1.clone();
                    proof {
                        assert(dest == cl[j as int].0);
                        assert(dest_nick@ == cl[j as int].1);
                    }
                    snapshot.push((dest, dest_nick));
                    j += 1;
                    proof {
                        let n = j as int;
                        assert forall|k: int| 0 <= k < n implies
                            nicks_view(snapshot@)[k] == cl.take(n)[k] by {
                            if k < n - 1 {
                                assert(snapshot@[k] == prev[k]);
                                assert(nicks_view(prev)[k] == cl.take(n - 1)[k]);
                            } else {
                                assert((snapshot@[k].0, snapshot@[k].1@) == cl[k]);
                            }
                        }
                        assert(nicks_view(snapshot@) =~= cl.take(n));
                    }
                }
                proof {
                    assert(cl.take(self.clients@.len() as int) =~= cl);
                }
                snapshot.push((a, nick.clone()));
                proof {
                    assert(nicks_view(snapshot@) =~= cl.push((a, nick@)));
                }
                self.clients.push((a, nick));
                sends.push((a, ServerMessages::InitClient { clients: snapshot }));
                proof {
                    assert(nicks_view(self.clients@) =~= cl.push((a, nick@)));
                    assert(final(self)@ =~= step(old(self)@, e));
                    assert(sends_view(sends@) =~= event_sends(old(self)@, e));
                    // Well-formedness: the new entry's address is fresh and
                    // connected.
                    let nc = final(self)@.clients;
                    assert forall|p: int, q: int| 0 <= p < q < nc.len() implies
                        (#[trigger] nc[p]).0 != (#[trigger] nc[q]).0 by {
                        if q < cl.len() {
                            assert(nc[p] == cl[p]);
                            assert(nc[q] == cl[q]);
                        } else {
                            assert(nc[q].0 == a);
                            assert(nc[p] == cl[p]);
                            if cl[p].0 == a {
                                assert(has_key(cl, a));
                            }
                        }
                    }
                    assert forall|b: Addr| #[trigger] has_key(nc, b) implies
                        final(self)@.connected.contains(b) by {
                        let k = choose|k: int| 0 <= k < nc.len() && (#[trigger] nc[k]).0 == b;
                        if k < cl.len() {
                            assert(cl[k].0 == b);
                            assert(has_key(cl, b));
                        } else {
                            assert(b == a);
                        }
                    }
                }
            },
            _ => {
                proof {
                    match existing {
                        Some(at) => {
                            assert(old(self)@.clients[at as int].0 == a);
                            assert(has_key(old(self)@.clients, a));
                        },
                        None => {
                            assert forall|j: int| 0 <= j < old(self)@.connected.len() implies
                                old(self)@.connected[j] != a by {}
                            assert(!old(self)@.connected.contains(a));
                        },
                    }
                    assert(!init_accepted(old(self)@, a));
                    assert(final(self)@ =~= step(old(self)@, e));
                    assert(sends_view(sends@) =~= Seq::<(Addr, SrvMsgView)>::empty());
                }
            },
        }
        sends
    }

    /// Removes `a` from the registry if present (idempotent: a no-op when
    /// absent) and broadcasts `ClientDisconnected(a, reason)` to all
    /// remaining peers. The transport connection record for `a` is dropped
    /// either way, so a reused address starts as a brand-new session.
    pub fn on_disconnect(&mut self, a: Addr, reason: DisconnectReason) -> (sends: Vec<OutSend>)
        requires
            old(self).wf(),
        ensures
            final(self).wf(),
            final(self)@ == step(old(self)@, EventView::Disconnect { addr: a, reason }),
            sends_view(sends@) == event_sends(
                old(self)@,
                EventView::Disconnect { addr: a, reason },
            ),
    {
        let ghost e = EventView::Disconnect { addr: a, reason };
        let ghost oldc = old(self)@.connected;
        let ghost oldcl = old(self)@.clients;
        let mut sends: Vec<OutSend> = Vec::new();
        let at_connected = find_addr(&self.connected, a);
        match at_connected {
            Some(i) => {
                self.connected.remove(i);
                proof {
                    lemma_remove_addr_at_first_match(oldc, a, i as int);
                    assert(self@.connected =~= remove_addr(oldc, a));
                }
            },
            None => {
                proof {
                    lemma_remove_addr_absent(oldc, a);
                    assert(self@.connected =~= remove_addr(oldc, a));
                }
            },
        }
        let at_client = find_client(&self.clients, a);
        match at_client {
            Some(i) => {
                proof {
                    assert(oldcl[i as int].0 == self.clients@[i as int].0);
                    assert(has_key(oldcl, a));
                    assert forall|j: int| 0 <= j < i implies (#[trigger] oldcl[j]).0 != a by {
                        assert(oldcl[j].0 == self.clients@[j].0);
                    }
                }
                self.clients.remove(i);
                proof {
                    assert(nicks_view(self.clients@) =~= nicks_view(old(self).clients@).remove(
                        i as int,
                    ));
                    lemma_remove_at_first_match(oldcl, a, i as int);
                    assert(self@.clients =~= remove_key(oldcl, a));
                }
                let ghost cl = self@.clients;
                let ghost m = SrvMsgView::Disconnected { addr: a, reason };
                let mut k: usize = 0;
                while k < self.clients.len()
                    invariant
                        k <= self.clients@.len(),
                        cl == nicks_view(self.clients@),
                        sends_view(sends@) == to_all(cl.take(k as int), m),
                        m == (SrvMsgView::Disconnected { addr: a, reason }),
                    decreases self.clients@.len() - k,
                {
                    let ghost prev = sends@;
                    proof {
                        assert(sends_view(prev) == to_all(cl.take(k as int), m));
                        assert(sends_view(prev).len() == prev.len());
                        assert(to_all(cl.take(k as int), m).len() == k as int);
                        assert(prev.len() == k as int);
                    }
                    let dest = self.clients[k].0;
                    let msg = ServerMessages::ClientDisconnected(a, reason);
                    proof {
                        assert(msg@ == m);
                        assert(dest == cl[k as int].0);
                    }
                    sends.push((dest, msg));
                    k += 1;
                    proof {
                        let n = k as int;
                        assert forall|q: int| 0 <= q < n implies
                            sends_view(sends@)[q] == to_all(cl.take(n), m)[q] by {
                            if q < n - 1 {
                                assert(sends@[q] == prev[q]);
                                assert(sends_view(prev)[q] == to_all(cl.take(n - 1), m)[q]);
                            } else {
                                assert(send_view(sends@[q]) == (cl[q].0, m));
                            }
                        }
                        assert(sends_view(sends@) =~= to_all(cl.take(n), m));
                    }
                }
                proof {
                    assert(cl.take(self.clients@.len() as int) =~= cl);
                    assert(sends_view(sends@) =~= event_sends(old(self)@, e));
                }
            },
            None => {
                proof {
                    assert forall|j: int| 0 <= j < oldcl.len() implies
                        (#[trigger] oldcl[j]).0 != a by {
                        assert(oldcl[j].0 == old(self).clients@[j].0);
                    }
                    assert(!has_key(oldcl, a));
                    lemma_remove_key_absent(oldcl, a);
                    assert(self@.clients =~= remove_key(oldcl, a));
                    assert(sends_view(sends@) =~= Seq::<(Addr, SrvMsgView)>::empty());
                }
            },
        }
        proof {
            assert(final(self)@ =~= step(old(self)@, e));
            // Well-formedness is preserved: both removals keep distinctness,
            // and membership on both sides shrinks by exactly `a`.
            lemma_remove_addr_membership(oldc, a);
            lemma_remove_key_membership(oldcl, a);
            assert forall|b: Addr| #[trigger] has_key(final(self)@.clients, b) implies
                final(self)@.connected.contains(b) by {
                assert(has_key(oldcl, b) && b != a);
                assert(oldc.contains(b));
            }
        }
        sends
    }

    /// The registry's entries, in order of initialization.
    pub fn clients_entries(&self) -> (v: &Vec<(Addr, String)>)
        ensures
            nicks_view(v@) == self@.clients,
    {
        &self.clients
    }

    /// The transport-connected addresses, in order of connection.
    pub fn connected_entries(&self) -> (v: &Vec<Addr>)
        ensures
            v@ == self@.connected,
    {
        &self.connected
    }

    /// Feeds the events to the registry in order and returns each event's
    /// send batch, in event order: exactly the replay of the abstract
    /// transition system.
    pub fn replay(&mut self, events: &Vec<ServerEvent>) -> (outs: Vec<Vec<OutSend>>)
        requires
            old(self).wf(),
        ensures
            final(self).wf(),
            final(self)@ == replay_state(old(self)@, events_view(events@)),
            batches_view(outs@) == replay_batches(old(self)@, events_view(events@)),
    {
        let ghost init0 = old(self)@;
        let ghost ev = events_view(events@);
        let mut outs: Vec<Vec<OutSend>> = Vec::new();
        let mut idx: usize = 0;
        proof {
            assert(ev.take(0) =~= Seq::<EventView>::empty());
            assert(batches_view(outs@) =~= replay_batches(init0, ev).take(0));
        }
        while idx < events.len()
            invariant
                idx <= events@.len(),
                self.wf(),
                ev == events_view(events@),
                self@ == replay_state(init0, ev.take(idx as int)),
                batches_view(outs@) == replay_batches(init0, ev).take(idx as int),
                outs@.len() == idx,
            decreases events@.len() - idx,
        {
            let ghost pre = self@;
            let ghost prev_outs = outs@;
            let batch: Vec<OutSend> = match &events[idx] {
                ServerEvent::Connect(a) => {
                    self.on_connect(*a);
                    let b: Vec<OutSend> = Vec::new();
                    proof {
                        assert(ev[idx as int] == (EventView::Connect { addr: *a }));
                        assert(self@ == step(pre, ev[idx as int]));
                        assert(sends_view(b@) =~= event_sends(pre, ev[idx as int]));
                    }
                    b
                },
                ServerEvent::Init(a, nick) => {
                    let b = self.on_init(*a, nick.clone());
                    proof {
                        assert(ev[idx as int] == (EventView::Init { addr: *a, nick: nick@ }));
                        assert(self@ == step(pre, ev[idx as int]));
                        assert(sends_view(b@) == event_sends(pre, ev[idx as int]));
                    }
                    b
                },
                ServerEvent::Message(a, body) => {
                    let b = self.on_message(*a, body.clone());
                    proof {
                        assert(ev[idx as int] == (EventView::Message { addr: *a, body: body@ }));
                        assert(self@ == step(pre, ev[idx as int]));
                        assert(sends_view(b@) == event_sends(pre, ev[idx as int]));
                    }
                    b
                },
                ServerEvent::Disconnect(a, reason) => {
                    let b = self.on_disconnect(*a, *reason);
                    proof {
                        assert(ev[idx as int] == (EventView::Disconnect {
                            addr: *a,
                            reason: *reason,
                        }));
                        assert(self@ == step(pre, ev[idx as int]));
                        assert(sends_view(b@) == event_sends(pre, ev[idx as int]));
                    }
                    b
                },
            };
            let ghost batchv = batch@;
            outs.push(batch);
            idx += 1;
            proof {
                let n = idx as int;
                assert(ev.take(n).drop_last() =~= ev.take(n - 1));
                assert(ev.take(n).last() == ev[n - 1]);
                assert(self@ == replay_state(init0, ev.take(n)));
                assert(batches_view(prev_outs).len() == prev_outs.len());
                assert(replay_batches(init0, ev).take(n - 1).len() == n - 1);
                assert(prev_outs.len() == n - 1);
                assert forall|k: int| 0 <= k < n implies
                    batches_view(outs@)[k] == replay_batches(init0, ev).take(n)[k] by {
                    if k < n - 1 {
                        assert(outs@[k] == prev_outs[k]);
                        assert(batches_view(prev_outs)[k] == replay_batches(init0, ev).take(
                            n - 1,
                        )[k]);
                    } else {
                        assert(sends_view(outs@[k]@) == event_sends(pre, ev[k]));
                        assert(pre == replay_state(init0, ev.take(k)));
                        assert(replay_batches(init0, ev)[k] == event_sends(
                            replay_state(init0, ev.take(k)),
                            ev[k],
                        ));
                    }
                }
                assert(batches_view(outs@) =~= replay_batches(init0, ev).take(n));
            }
        }
        proof {
            assert(ev.take(events@.len() as int) =~= ev);
            assert(replay_batches(init0, ev).take(events@.len() as int) =~= replay_batches(
                init0,
                ev,
            ));
        }
        outs
    }
}

/// The view of a sequence of events.
pub open spec fn events_view(es: Seq<ServerEvent>) -> Seq<EventView> {
    es.map_values(|e: ServerEvent| e@)
}

/// The view of a sequence of send batches.
pub open spec fn batches_view(v: Seq<Vec<OutSend>>) -> Seq<Seq<(Addr, SrvMsgView)>> {
    v.map_values(|b: Vec<OutSend>| sends_view(b@))
}

/// The state nobody has connected to yet.
pub open spec fn empty_registry() -> RegistryView {
    RegistryView { connected: Seq::empty(), clients: Seq::empty() }
}

/// The state after feeding `es` to `init`, event by event.
pub open spec fn replay_state(init: RegistryView, es: Seq<EventView>) -> RegistryView
    decreases es.len(),
{
    if es.len() == 0 {
        init
    } else {
        step(replay_state(init, es.drop_last()), es.last())
    }
}

/// The per-event send batches of a replay, in event order.
pub open spec fn replay_batches(init: RegistryView, es: Seq<EventView>) -> Seq<
    Seq<(Addr, SrvMsgView)>,
> {
    Seq::new(es.len(), |i: int| event_sends(replay_state(init, es.take(i)), es[i]))
}

/// Everything a replay emits, flattened in emission order. A send to a peer
/// that stands earlier here is handed to the reliable channel earlier, so the
/// peer observes it earlier.
pub open spec fn replay_outbox(init: RegistryView, es: Seq<EventView>) -> Seq<
    (Addr, SrvMsgView),
> {
    replay_batches(init, es).flatten()
}

/// One step preserves well-formedness.
pub proof fn lemma_step_wf(r: RegistryView, e: EventView)
    requires
        reg_wf(r),
    ensures
        reg_wf(step(r, e)),
{
    match e {
        EventView::Connect { addr } => {
            if !r.connected.contains(addr) {
                let c = r.connected.push(addr);
                assert forall|i: int, j: int| 0 <= i < j < c.len() implies c[i] != c[j] by {
                    if j < r.connected.len() {
                        assert(c[i] == r.connected[i]);
                        assert(c[j] == r.connected[j]);
                    } else {
                        assert(c[i] == r.connected[i]);
                        assert(!r.connected.contains(addr));
                    }
                }
                assert forall|b: Addr| #[trigger] has_key(step(r, e).clients, b) implies
                    step(r, e).connected.contains(b) by {
                    assert(r.connected.contains(b));
                    let k = choose|k: int| 0 <= k < r.connected.len() && r.connected[k] == b;
                    assert(c[k] == b);
                }
            }
        },
        EventView::Init { addr, nick } => {
            if init_accepted(r, addr) {
                let nc = r.clients.push((addr, nick));
                assert forall|p: int, q: int| 0 <= p < q < nc.len() implies
                    (#[trigger] nc[p]).0 != (#[trigger] nc[q]).0 by {
                    if q < r.clients.len() {
                        assert(nc[p] == r.clients[p]);
                        assert(nc[q] == r.clients[q]);
                    } else {
                        assert(nc[p] == r.clients[p]);
                        if r.clients[p].0 == addr {
                            assert(has_key(r.clients, addr));
                        }
                    }
                }
                assert forall|b: Addr| #[trigger] has_key(nc, b) implies
                    r.connected.contains(b) by {
                    let k = choose|k: int| 0 <= k < nc.len() && (#[trigger] nc[k]).0 == b;
                    if k < r.clients.len() {
                        assert(r.clients[k].0 == b);
                        assert(has_key(r.clients, b));
                    } else {
                        assert(b == addr);
                    }
                }
            }
        },
        EventView::Message { .. } => {},
        EventView::Disconnect { addr, .. } => {
            lemma_remove_addr_membership(r.connected, addr);
            lemma_remove_key_uniq(r.clients, addr);
            assert forall|b: Addr| #[trigger] has_key(step(r, e).clients, b) implies
                step(r, e).connected.contains(b) by {
                lemma_remove_key_has(r.clients, addr, b);
                lemma_remove_addr_has(r.connected, addr, b);
                assert(has_key(r.clients, b) && b != addr);
                assert(r.connected.contains(b));
            }
        },
    }
}

/// A replay from a well-formed state stays well-formed.
pub proof fn lemma_replay_wf(init: RegistryView, es: Seq<EventView>)
    requires
        reg_wf(init),
    ensures
        reg_wf(replay_state(init, es)),
    decreases es.len(),
{
    if es.len() > 0 {
        lemma_replay_wf(init, es.drop_last());
        lemma_step_wf(replay_state(init, es.drop_last()), es.last());
    }
}


/// `e` is an `Init` from `a`.
pub open spec fn is_init_of(e: EventView, a: Addr) -> bool {
    e matches EventView::Init { addr, .. } && addr == a
}

/// `e` is a `Disconnect` of `a`.
pub open spec fn is_disconnect_of(e: EventView, a: Addr) -> bool {
    e matches EventView::Disconnect { addr, .. } && addr == a
}

/// The nickname an `Init` event carries.
pub open spec fn init_nick(e: EventView) -> Seq<char> {
    match e {
        EventView::Init { nick, .. } => nick,
        _ => Seq::empty(),
    }
}

/// Position `i` of `es` initializes `a`, and no later event disconnects `a`.
pub open spec fn live_at(es: Seq<EventView>, a: Addr, i: int) -> bool {
    &&& 0 <= i < es.len()
    &&& is_init_of(es[i], a)
    &&& forall|j: int| i < j < es.len() ==> !is_disconnect_of(#[trigger] es[j], a)
}

/// `a` sent an `Init` and has not disconnected since.
pub open spec fn live(es: Seq<EventView>, a: Addr) -> bool {
    exists|i: int| live_at(es, a, i)
}

/// Every `Init` of `es` finds its sender connected and not yet registered, so
/// none is dropped.
pub open spec fn inits_accepted(init: RegistryView, es: Seq<EventView>) -> bool {
    forall|i: int| 0 <= i < es.len() ==> match #[trigger] es[i] {
        EventView::Init { addr, .. } => init_accepted(replay_state(init, es.take(i)), addr),
        _ => true,
    }
}

/// Appending an event that neither initializes nor disconnects `a` does not
/// change whether `a` is live.
proof fn lemma_live_push_neutral(es: Seq<EventView>, e: EventView, a: Addr)
    requires
        !is_init_of(e, a),
        !is_disconnect_of(e, a),
    ensures
        live(es.push(e), a) <==> live(es, a),
{
    let xs = es.push(e);
    if live(xs, a) {
        let i = choose|i: int| live_at(xs, a, i);
        assert(xs[i] == es[i]);
        assert forall|j: int| i < j < es.len() implies !is_disconnect_of(#[trigger] es[j], a) by {
            assert(es[j] == xs[j]);
        }
        assert(live_at(es, a, i));
    }
    if live(es, a) {
        let i = choose|i: int| live_at(es, a, i);
        assert(xs[i] == es[i]);
        assert forall|j: int| i < j < xs.len() implies !is_disconnect_of(#[trigger] xs[j], a) by {
            if j < es.len() {
                assert(xs[j] == es[j]);
            } else {
                assert(xs[j] == e);
            }
        }
        assert(live_at(xs, a, i));
    }
}

/// Appending a `Disconnect` of `a` makes `a` not live.
proof fn lemma_live_push_disconnect(es: Seq<EventView>, e: EventView, a: Addr)
    requires
        is_disconnect_of(e, a),
    ensures
        !live(es.push(e), a),
{
    let xs = es.push(e);
    assert forall|i: int| !live_at(xs, a, i) by {
        if 0 <= i < xs.len() && is_init_of(xs[i], a) {
            assert(i < xs.len() - 1);
            assert(xs[xs.len() - 1] == e);
            assert(is_disconnect_of(xs[xs.len() - 1], a));
        }
    }
}

/// Appending an `Init` of `a` makes `a` live at the new position.
proof fn lemma_live_push_init(es: Seq<EventView>, e: EventView, a: Addr)
    requires
        is_init_of(e, a),
    ensures
        live_at(es.push(e), a, es.len() as int),
        live(es.push(e), a),
{
    let xs = es.push(e);
    assert(xs[es.len() as int] == e);
    assert(live_at(xs, a, es.len() as int));
}

/// After replaying, from the empty state, any sequence of events in which
/// every `Init` is accepted, the registry holds exactly the addresses whose
/// `Init` is not followed by a `Disconnect` -- a double disconnect changes
/// nothing after the first, and a reused address is a brand-new session --
/// and each address carries the nickname of its most recent `Init`.
pub proof fn lemma_replay_registry(es: Seq<EventView>)
    requires
        inits_accepted(empty_registry(), es),
    ensures
        forall|a: Addr| #[trigger] has_key(replay_state(empty_registry(), es).clients, a)
            <==> live(es, a),
        forall|a: Addr, i: int| #[trigger] live_at(es, a, i)
            ==> nick_of(replay_state(empty_registry(), es).clients, a) == init_nick(es[i]),
    decreases es.len(),
{
    let r = replay_state(empty_registry(), es);
    assert(reg_wf(empty_registry()));
    lemma_replay_wf(empty_registry(), es);
    if es.len() == 0 {
        assert forall|a: Addr| !(#[trigger] has_key(r.clients, a)) && !live(es, a) by {
            assert(r.clients.len() == 0);
            assert forall|i: int| !live_at(es, a, i) by {}
        }
    } else {
        let es0 = es.drop_last();
        let e = es.last();
        let r0 = replay_state(empty_registry(), es0);
        assert(es =~= es0.push(e));
        assert(inits_accepted(empty_registry(), es0)) by {
            assert forall|i: int| 0 <= i < es0.len() implies match #[trigger] es0[i] {
                EventView::Init { addr, .. } => init_accepted(
                    replay_state(empty_registry(), es0.take(i)),
                    addr,
                ),
                _ => true,
            } by {
                assert(es0[i] == es[i]);
                assert(es0.take(i) =~= es.take(i));
                match es[i] {
                    EventView::Init { addr, .. } => {
                        assert(init_accepted(replay_state(empty_registry(), es.take(i)), addr));
                    },
                    _ => {},
                }
            }
        }
        lemma_replay_registry(es0);
        lemma_replay_wf(empty_registry(), es0);
        assert(r == step(r0, e));
        match e {
            EventView::Connect { .. } | EventView::Message { .. } => {
                assert(r.clients == r0.clients);
                assert forall|a: Addr| #[trigger] has_key(r.clients, a) <==> live(es, a) by {
                    lemma_live_push_neutral(es0, e, a);
                }
                assert forall|a: Addr, i: int| #[trigger] live_at(es, a, i) implies
                    nick_of(r.clients, a) == init_nick(es[i]) by {
                    assert(i < es0.len());
                    assert(es[i] == es0[i]);
                    assert forall|j: int| i < j < es0.len() implies
                        !is_disconnect_of(#[trigger] es0[j], a) by {
                        assert(es0[j] == es[j]);
                    }
                    assert(live_at(es0, a, i));
                }
            },
            EventView::Init { addr, nick } => {
                assert(es.take(es.len() - 1) =~= es0);
                assert(es[es.len() - 1] == e);
                assert(init_accepted(r0, addr));
                let nc = r0.clients.push((addr, nick));
                assert(r.clients == nc);
                lemma_step_wf(r0, e);
                assert forall|a: Addr| #[trigger] has_key(r.clients, a) <==> live(es, a) by {
                    if a == addr {
                        assert(nc[nc.len() - 1].0 == addr);
                        assert(has_key(nc, addr));
                        lemma_live_push_init(es0, e, a);
                    } else {
                        lemma_live_push_neutral(es0, e, a);
                        if has_key(nc, a) {
                            let k = choose|k: int| 0 <= k < nc.len() && (#[trigger] nc[k]).0 == a;
                            assert(k < r0.clients.len());
                            assert(r0.clients[k].0 == a);
                            assert(has_key(r0.clients, a));
                        }
                        if has_key(r0.clients, a) {
                            let k = choose|k: int|
                                0 <= k < r0.clients.len() && (#[trigger] r0.clients[k]).0 == a;
                            assert(nc[k].0 == a);
                            assert(has_key(nc, a));
                        }
                    }
                }
                assert forall|a: Addr, i: int| #[trigger] live_at(es, a, i) implies
                    nick_of(r.clients, a) == init_nick(es[i]) by {
                    if i == es.len() - 1 {
                        assert(es[i] == e);
                        assert(a == addr);
                        lemma_key_at_unique(nc, addr, nc.len() - 1);
                    } else {
                        assert(es[i] == es0[i]);
                        assert forall|j: int| i < j < es0.len() implies
                            !is_disconnect_of(#[trigger] es0[j], a) by {
                            assert(es0[j] == es[j]);
                        }
                        assert(live_at(es0, a, i));
                        assert(has_key(r0.clients, a));
                        if a == addr {
                            assert(false);
                        }
                        let k0 = key_at(r0.clients, a);
                        assert(0 <= k0 < r0.clients.len() && r0.clients[k0].0 == a);
                        assert(nc[k0] == r0.clients[k0]);
                        lemma_key_at_unique(nc, a, k0);
                    }
                }
            },
            EventView::Disconnect { addr, .. } => {
                assert(r.clients == remove_key(r0.clients, addr));
                lemma_remove_key_uniq(r0.clients, addr);
                assert forall|a: Addr| #[trigger] has_key(r.clients, a) <==> live(es, a) by {
                    lemma_remove_key_has(r0.clients, addr, a);
                    if a == addr {
                        lemma_live_push_disconnect(es0, e, a);
                    } else {
                        lemma_live_push_neutral(es0, e, a);
                    }
                }
                assert forall|a: Addr, i: int| #[trigger] live_at(es, a, i) implies
                    nick_of(r.clients, a) == init_nick(es[i]) by {
                    assert(i < es0.len());
                    assert(es[i] == es0[i]);
                    assert forall|j: int| i < j < es0.len() implies
                        !is_disconnect_of(#[trigger] es0[j], a) by {
                        assert(es0[j] == es[j]);
                    }
                    assert(live_at(es0, a, i));
                    assert(!is_disconnect_of(es[es.len() - 1], a));
                    assert(a != addr);
                    assert(has_key(r0.clients, a));
                    lemma_remove_key_has(r0.clients, addr, a);
                }
            },
        }
    }
}


/// A newly joined client's snapshot always contains its own entry: the
/// accepted `Init` ends with exactly one private send to the joiner, whose
/// snapshot is the new registry, holding `(a, nick)`.
pub proof fn lemma_init_snapshot_contains_self(r: RegistryView, a: Addr, nick: Seq<char>)
    requires
        reg_wf(r),
        init_accepted(r, a),
    ensures
        event_sends(r, EventView::Init { addr: a, nick }).len() == r.clients.len() + 1,
        event_sends(r, EventView::Init { addr: a, nick }).last() == (
            a,
            SrvMsgView::Snapshot { clients: r.clients.push((a, nick)) },
        ),
        has_key(r.clients.push((a, nick)), a),
        nick_of(r.clients.push((a, nick)), a) == nick,
{
    let e = EventView::Init { addr: a, nick };
    let sends = event_sends(r, e);
    let nc = r.clients.push((a, nick));
    lemma_step_wf(r, e);
    assert(step(r, e).clients == nc);
    assert(uniq_keys(nc));
    lemma_key_at_unique(nc, a, nc.len() - 1);
    let bc = to_all(r.clients, SrvMsgView::Connected { addr: a, nick });
    assert(bc.len() == r.clients.len());
    assert(sends == bc + seq![(a, SrvMsgView::Snapshot { clients: nc })]);
    assert(sends[sends.len() - 1] == (a, SrvMsgView::Snapshot { clients: nc }));
}

/// Element `k` of batch `i` stands in the flattened sequence at the total
/// length of the batches before `i`, plus `k`.
pub proof fn lemma_flatten_index<A>(bs: Seq<Seq<A>>, i: int, k: int)
    requires
        0 <= i < bs.len(),
        0 <= k < bs[i].len(),
    ensures
        bs.take(i).flatten().len() + k < bs.flatten().len(),
        bs.flatten()[bs.take(i).flatten().len() + k] == bs[i][k],
    decreases i,
{
    if i == 0 {
        assert(bs.take(0) =~= Seq::<Seq<A>>::empty());
        assert(bs.take(0).flatten().len() == 0);
        assert(bs.flatten() == bs.first().add(bs.drop_first().flatten()));
        assert(bs.flatten()[k] == bs[0][k]);
    } else {
        let t = bs.drop_first();
        assert(t[i - 1] == bs[i]);
        lemma_flatten_index(t, i - 1, k);
        assert(bs.flatten() == bs.first().add(t.flatten()));
        let pre = bs.take(i);
        assert(pre.len() == i);
        assert(pre.first() == bs[0]);
        assert(pre.drop_first() =~= t.take(i - 1));
        assert(pre.flatten() == pre.first().add(pre.drop_first().flatten()));
        assert(pre.flatten().len() == bs[0].len() + t.take(i - 1).flatten().len());
        let off = t.take(i - 1).flatten().len() + k;
        assert(bs.flatten()[bs[0].len() + off] == t.flatten()[off]);
        assert(t.flatten()[off] == t[i - 1][k]);
    }
}

/// The flattened length of a prefix of batches grows with the prefix.
pub proof fn lemma_flat_len_mono<A>(bs: Seq<Seq<A>>, i: int, j: int)
    requires
        0 <= i <= j <= bs.len(),
    ensures
        bs.take(i).flatten().len() <= bs.take(j).flatten().len(),
{
    vstd::seq_lib::lemma_flatten_concat(bs.take(i), bs.subrange(i, j));
    assert(bs.take(j) =~= bs.take(i) + bs.subrange(i, j));
    assert(bs.take(j).flatten() == bs.take(i).flatten() + bs.subrange(i, j).flatten());
}

/// One batch further adds exactly that batch's length.
pub proof fn lemma_flat_len_step<A>(bs: Seq<Seq<A>>, i: int)
    requires
        0 <= i < bs.len(),
    ensures
        bs.take(i + 1).flatten().len() == bs.take(i).flatten().len() + bs[i].len(),
{
    vstd::seq_lib::lemma_flatten_concat(bs.take(i), seq![bs[i]]);
    assert(bs.take(i + 1) =~= bs.take(i) + seq![bs[i]]);
    assert(bs.take(i + 1).flatten() == bs.take(i).flatten() + seq![bs[i]].flatten());
    seq![bs[i]].lemma_flatten_one_element();
    assert(seq![bs[i]].flatten() == bs[i]);
}

/// Order preservation: when one peer's text stands before another of its
/// texts in the event sequence, then for every destination registered at both
/// points the replayed outbox holds the first `ClientMessage` strictly before
/// the second. The reliable channel keeps per-destination emission order, so
/// the destination observes them in this order.
pub proof fn lemma_order_preservation(
    es: Seq<EventView>,
    i: int,
    j: int,
    a: Addr,
    bi: Seq<char>,
    bj: Seq<char>,
    d: Addr,
)
    requires
        0 <= i < j < es.len(),
        es[i] == (EventView::Message { addr: a, body: bi }),
        es[j] == (EventView::Message { addr: a, body: bj }),
        has_key(replay_state(empty_registry(), es.take(i)).clients, a),
        has_key(replay_state(empty_registry(), es.take(i)).clients, d),
        has_key(replay_state(empty_registry(), es.take(j)).clients, a),
        has_key(replay_state(empty_registry(), es.take(j)).clients, d),
    ensures
        exists|p: int, q: int|
            {
                &&& 0 <= p < q < replay_outbox(empty_registry(), es).len()
                &&& replay_outbox(empty_registry(), es)[p] == (
                    d,
                    SrvMsgView::Message { addr: a, body: bi },
                )
                &&& replay_outbox(empty_registry(), es)[q] == (
                    d,
                    SrvMsgView::Message { addr: a, body: bj },
                )
            },
{
    let bs = replay_batches(empty_registry(), es);
    let out = replay_outbox(empty_registry(), es);
    let ri = replay_state(empty_registry(), es.take(i));
    let rj = replay_state(empty_registry(), es.take(j));
    let mi = SrvMsgView::Message { addr: a, body: bi };
    let mj = SrvMsgView::Message { addr: a, body: bj };
    assert(bs[i] == event_sends(ri, es[i]));
    assert(bs[j] == event_sends(rj, es[j]));
    assert(bs[i] == to_all(ri.clients, mi));
    assert(bs[j] == to_all(rj.clients, mj));
    let ki = key_at(ri.clients, d);
    let kj = key_at(rj.clients, d);
    assert(0 <= ki < ri.clients.len() && ri.clients[ki].0 == d);
    assert(0 <= kj < rj.clients.len() && rj.clients[kj].0 == d);
    assert(bs[i][ki] == (d, mi));
    assert(bs[j][kj] == (d, mj));
    let p = bs.take(i).flatten().len() + ki;
    let q = bs.take(j).flatten().len() + kj;
    lemma_flatten_index(bs, i, ki);
    lemma_flatten_index(bs, j, kj);
    lemma_flat_len_step(bs, i);
    lemma_flat_len_mono(bs, i + 1, j);
    assert(p < bs.take(i + 1).flatten().len());
    assert(bs.take(i + 1).flatten().len() <= bs.take(j).flatten().len());
    assert(q <= out.len());
    assert(0 <= p < q < out.len() && out[p] == (d, mi) && out[q] == (d, mj));
}

} // verus!
