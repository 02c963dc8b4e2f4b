//! The client session state: a small state machine that mirrors the server's
//! registry from the init snapshot and the connection events that follow.
//!
//! States run `Disconnected -> Connecting -> AwaitingInit -> Joined`; a
//! transport-level disconnection returns to `Disconnected` from anywhere and
//! clears the local mirror. The client never sends `Text` before `Joined`.

use vstd::prelude::*;

use crate::messages::nicks_view;
use crate::messages::ClientMessages;
use crate::messages::ServerMessages;
use crate::messages::SrvMsgView;
use crate::model::dedup_keys;
use crate::model::has_key;
use crate::model::insert_absent;
use crate::model::lemma_dedup_of_uniq;
use crate::model::lemma_dedup_uniq;
use crate::model::lemma_push_uniq;
use crate::model::lemma_remove_at_first_match;
use crate::model::lemma_remove_key_absent;
use crate::model::lemma_remove_key_uniq;
use crate::model::remove_key;
use crate::model::uniq_keys;
use crate::model::Addr;
use crate::model::NickSeq;
use crate::server::event_sends;
use crate::server::init_accepted;
use crate::server::reg_wf;
use crate::server::step;
use crate::server::to_all;
use crate::server::EventView;
use crate::server::RegistryView;

verus! {

/// Where a client session stands.
#[derive(Clone, Copy, Debug, PartialEq, Eq, Structural)]
pub enum ConnectionState {
    /// No transport connection; the local mirror is empty.
    Disconnected,
    /// The user asked to connect; the transport has not confirmed yet.
    Connecting,
    /// Connected and `Init` sent; the init snapshot has not arrived yet.
    AwaitingInit,
    /// The init snapshot arrived; the mirror tracks the registry.
    Joined,
}

/// The abstract state of one client session.
#[verifier::ext_equal]
pub struct ClientView {
    /// Where the session stands.
    pub state: ConnectionState,
    /// The nickname this client announces at `Init`.
    pub nick: Seq<char>,
    /// The local mirror of the server's registry.
    pub mirror: NickSeq,
    /// The chat lines observed so far, in arrival order.
    pub history: Seq<(Addr, Seq<char>)>,
}

/// The exact transition the mirror makes on one server message.
pub open spec fn client_step(c: ClientView, m: SrvMsgView) -> ClientView {
    match c.state {
        ConnectionState::AwaitingInit => match m {
            SrvMsgView::Snapshot { clients } => (ClientView {
                state: ConnectionState::Joined,
                nick: c.nick,
                mirror: dedup_keys(clients),
                history: c.history,
            }),
            _ => c,
        },
        ConnectionState::Joined => match m {
            SrvMsgView::Connected { addr, nick } => (ClientView {
                state: c.state,
                nick: c.nick,
                mirror: insert_absent(c.mirror, addr, nick),
                history: c.history,
            }),
            SrvMsgView::Disconnected { addr, .. } => (ClientView {
                state: c.state,
                nick: c.nick,
                mirror: remove_key(c.mirror, addr),
                history: c.history,
            }),
            SrvMsgView::Message { addr, body } => (ClientView {
                state: c.state,
                nick: c.nick,
                mirror: c.mirror,
                history: c.history.push((addr, body)),
            }),
            SrvMsgView::Snapshot { .. } => c,
        },
        _ => c,
    }
}

/// One chat client's session state.
pub struct ChatApp {
    state: ConnectionState,
    nick: String,
    mirror: Vec<(Addr, String)>,
    history: Vec<(Addr, String)>,
}

impl View for ChatApp {
    type V = ClientView;

    closed spec fn view(&self) -> ClientView {
        ClientView {
            state: self.state,
            nick: self.nick@,
            mirror: nicks_view(self.mirror@),
            history: nicks_view(self.history@),
        }
    }
}

/// The position of the first mirror entry keyed by `a`, if any.
fn find_entry(v: &Vec<(Addr, String)>, a: Addr) -> (r: Option<usize>)
    ensures
        match r {
            Some(i) => i < v@.len() && v@[i as int].0 == a && forall|j: int|
                0 <= j < i ==> (#[trigger] v@[j]).0 != a,
            None => forall|j: int| 0 <= j < v@.len() ==> (#[trigger] v@[j]).0 != a,
        },
{
    let mut i: usize = 0;
    while i < v.len()
        invariant
            i <= v@.len(),
            forall|j: int| 0 <= j < i ==> (#[trigger] v@[j]).0 != a,
        decreases v@.len() - i,
    {
        if v[i].0 == a {
            return Some(i);
        }
        i += 1;
    }
    None
}

impl ChatApp {
    /// Well-formedness: the mirror holds one entry per address.
    pub open spec fn wf(&self) -> bool {
        uniq_keys(self@.mirror)
    }

    /// A fresh, disconnected session that will announce `nick`.
    pub fn new(nick: String) -> (c: ChatApp)
        ensures
            c.wf(),
            c@.state == ConnectionState::Disconnected,
            c@.nick == nick@,
            c@.mirror =~= Seq::<(Addr, Seq<char>)>::empty(),
            c@.history =~= Seq::<(Addr, Seq<char>)>::empty(),
    {
        let c = ChatApp { state: ConnectionState::Disconnected, nick, mirror: Vec::new(), history: Vec::new() };
        proof {
            assert(c@.mirror =~= Seq::<(Addr, Seq<char>)>::empty());
            assert(c@.history =~= Seq::<(Addr, Seq<char>)>::empty());
        }
        c
    }

    /// User-initiated connect: leaves `Disconnected` for `Connecting`; a
    /// no-op in any other state.
    pub fn connect(&mut self)
        requires
            old(self).wf(),
        ensures
            final(self).wf(),
            old(self)@.state == ConnectionState::Disconnected ==> final(self)@ == (ClientView {
                state: ConnectionState::Connecting,
                ..old(self)@
            }),
            old(self)@.state != ConnectionState::Disconnected ==> final(self)@ == old(self)@,
    {
        if self.state == ConnectionState::Disconnected {
            self.state = ConnectionState::Connecting;
        }
    }

    /// The transport confirmed the connection: the client moves to
    /// `AwaitingInit` and immediately hands back the `Init{nick}` it owes the
    /// server; in any other state nothing happens and nothing is sent.
    pub fn transport_connected(&mut self) -> (msg: Option<ClientMessages>)
        requires
            old(self).wf(),
        ensures
            final(self).wf(),
            old(self)@.state == ConnectionState::Connecting ==> {
                &&& final(self)@ == (ClientView {
                    state: ConnectionState::AwaitingInit,
                    ..old(self)@
                })
                &&& msg matches Some(m) && m@ == (crate::messages::ClientMsgView::Init {
                    nick: old(self)@.nick,
                })
            },
            old(self)@.state != ConnectionState::Connecting ==> final(self)@ == old(self)@
                && msg is None,
    {
        if self.state == ConnectionState::Connecting {
            self.state = ConnectionState::AwaitingInit;
            Some(ClientMessages::Init { nick: self.nick.clone() })
        } else {
            None
        }
    }

    /// A user-submitted chat line: wrapped as `Text` exactly when the session
    /// is `Joined`; the client never sends `Text` before `Joined`.
    pub fn submit_text(&self, body: String) -> (msg: Option<ClientMessages>)
        ensures
            self@.state == ConnectionState::Joined <==> msg is Some,
            msg matches Some(m) ==> m@ == (crate::messages::ClientMsgView::Text { body: body@ }),
    {
        if self.state == ConnectionState::Joined {
            Some(ClientMessages::Text(body))
        } else {
            None
        }
    }

    /// The transport reported the connection gone: back to `Disconnected`
    /// from any state, with the mirror cleared; the chat history is kept for
    /// display.
    pub fn transport_disconnected(&mut self)
        requires
            old(self).wf(),
        ensures
            final(self).wf(),
            final(self)@ == (ClientView {
                state: ConnectionState::Disconnected,
                mirror: Seq::<(Addr, Seq<char>)>::empty(),
                ..old(self)@
            }),
    {
        self.state = ConnectionState::Disconnected;
        self.mirror = Vec::new();
        proof {
            assert(self@.mirror =~= Seq::<(Addr, Seq<char>)>::empty());
        }
    }

    /// Applies one server message: the init snapshot replaces the mirror
    /// wholesale and completes the join; in `Joined`, connection events
    /// mutate the mirror and chat lines extend the history; anything else is
    /// dropped.
    pub fn on_server_message(&mut self, m: ServerMessages)
        requires
            old(self).wf(),
        ensures
            final(self).wf(),
            final(self)@ == client_step(old(self)@, m@),
    {
        let ghost mv = m@;
        match m {
            ServerMessages::InitClient { clients } => {
                if self.state == ConnectionState::AwaitingInit {
                    let ghost snap = nicks_view(clients@);
                    self.state = ConnectionState::Joined;
                    self.mirror = Vec::new();
                    let mut i: usize = 0;
                    proof {
                        assert(snap.take(0) =~= Seq::<(Addr, Seq<char>)>::empty());
                        assert(nicks_view(self.mirror@) =~= dedup_keys(snap.take(0)));
                        lemma_dedup_uniq(snap.take(0));
                    }
                    while i < clients.len()
                        invariant
                            i <= clients@.len(),
                            snap == nicks_view(clients@),
                            nicks_view(self.mirror@) == dedup_keys(snap.take(i as int)),
                            uniq_keys(nicks_view(self.mirror@)),
                            self@.state == ConnectionState::Joined,
                            self@.nick == old(self)@.nick,
                            self@.history == old(self)@.history,
                        decreases clients@.len() - i,
                    {
                        let ghost prev = self.mirror@;
                        let a = clients[i].0;
                        let present = find_entry(&self.mirror, a);
                        if present.is_none() {
                            proof {
                                assert forall|j: int| 0 <= j < nicks_view(prev).len() implies
                                    (#[trigger] nicks_view(prev)[j]).0 != a by {
                                    assert(nicks_view(prev)[j].0 == prev[j].0);
                                }
                                assert(!has_key(nicks_view(prev), a));
                                lemma_push_uniq(nicks_view(prev), a, clients@[i as int].1@);
                            }
                            let entry_nick = clients[i].1.clone();
                            self.mirror.push((a, entry_nick));
                        } else {
                            proof {
                                let at = present.unwrap();
                                assert(nicks_view(prev)[at as int].0 == a);
                                assert(has_key(nicks_view(prev), a));
                            }
                        }
                        i += 1;
                        proof {
                            let n = i as int;
                            assert(snap.take(n).drop_last() =~= snap.take(n - 1));
                            assert(snap.take(n).last() == snap[n - 1]);
                            assert(snap[n - 1].0 == a);
                            assert(nicks_view(self.mirror@) =~= dedup_keys(snap.take(n)));
                        }
                    }
                    proof {
                        assert(snap.take(clients@.len() as int) =~= snap);
                        assert(final(self)@ =~= client_step(old(self)@, mv));
                    }
                } else if self.state == ConnectionState::Joined {
                    proof {
                        assert(final(self)@ =~= client_step(old(self)@, mv));
                    }
                } else {
                    proof {
                        assert(final(self)@ =~= client_step(old(self)@, mv));
                    }
                }
            },
            ServerMessages::ClientConnected(a, nick) => {
                if self.state == ConnectionState::Joined {
                    let ghost prev = self.mirror@;
                    let present = find_entry(&self.mirror, a);
                    if present.is_none() {
                        proof {
                            assert forall|j: int| 0 <= j < nicks_view(prev).len() implies
                                (#[trigger] nicks_view(prev)[j]).0 != a by {
                                assert(nicks_view(prev)[j].0 == prev[j].0);
                            }
                            assert(!has_key(nicks_view(prev), a));
                            lemma_push_uniq(nicks_view(prev), a, nick@);
                        }
                        self.mirror.push((a, nick));
                    } else {
                        proof {
                            let at = present.unwrap();
                            assert(nicks_view(prev)[at as int].0 == a);
                            assert(has_key(nicks_view(prev), a));
                        }
                    }
                    proof {
                        assert(final(self)@ =~= client_step(old(self)@, mv));
                    }
                } else {
                    proof {
                        assert(final(self)@ =~= client_step(old(self)@, mv));
                    }
                }
            },
            ServerMessages::ClientDisconnected(a, _reason) => {
                if self.state == ConnectionState::Joined {
                    let ghost prev = nicks_view(self.mirror@);
                    let present = find_entry(&self.mirror, a);
                    match present {
                        Some(at) => {
                            proof {
                                assert(prev[at as int].0 == self.mirror@[at as int].0);
                                assert forall|j: int| 0 <= j < at implies
                                    (#[trigger] prev[j]).0 != a by {
                                    assert(prev[j].0 == self.mirror@[j].0);
                                }
                            }
                            self.mirror.remove(at);
                            proof {
                                assert(nicks_view(self.mirror@) =~= prev.remove(at as int));
                                lemma_remove_at_first_match(prev, a, at as int);
                                lemma_remove_key_uniq(prev, a);
                                assert(final(self)@ =~= client_step(old(self)@, mv));
                            }
                        },
                        None => {
                            proof {
                                assert forall|j: int| 0 <= j < prev.len() implies
                                    (#[trigger] prev[j]).0 != a by {
                                    assert(prev[j].0 == self.mirror@[j].0);
                                }
                                lemma_remove_key_absent(prev, a);
                                assert(final(self)@ =~= client_step(old(self)@, mv));
                            }
                        },
                    }
                } else {
                    proof {
                        assert(final(self)@ =~= client_step(old(self)@, mv));
                    }
                }
            },
            ServerMessages::ClientMessage(a, body) => {
                if self.state == ConnectionState::Joined {
                    self.history.push((a, body));
                    proof {
                        assert(final(self)@.history =~= old(self)@.history.push((a, body@)));
                        assert(final(self)@ =~= client_step(old(self)@, mv));
                    }
                } else {
                    proof {
                        assert(final(self)@ =~= client_step(old(self)@, mv));
                    }
                }
            },
        }
    }

    /// The current session state, for the presentation shell.
    pub fn state(&self) -> (s: ConnectionState)
        ensures
            s == self@.state,
    {
        self.state
    }

    /// The entries of the local mirror, in mirror order.
    pub fn mirror_entries(&self) -> (v: &Vec<(Addr, String)>)
        ensures
            nicks_view(v@) == self@.mirror,
    {
        &self.mirror
    }

    /// The chat lines observed so far, in arrival order.
    pub fn history_entries(&self) -> (v: &Vec<(Addr, String)>)
        ensures
            nicks_view(v@) == self@.history,
    {
        &self.history
    }
}


/// A snapshot with one entry per address -- the only kind the server sends --
/// replaces the mirror wholesale: after the join transition the mirror is the
/// snapshot itself.
pub proof fn lemma_snapshot_replaces_mirror(c: ClientView, clients: NickSeq)
    requires
        c.state == ConnectionState::AwaitingInit,
        uniq_keys(clients),
    ensures
        client_step(c, SrvMsgView::Snapshot { clients }) == (ClientView {
            state: ConnectionState::Joined,
            nick: c.nick,
            mirror: clients,
            history: c.history,
        }),
{
    lemma_dedup_of_uniq(clients);
    assert(client_step(c, SrvMsgView::Snapshot { clients }) =~= ClientView {
        state: ConnectionState::Joined,
        nick: c.nick,
        mirror: clients,
        history: c.history,
    });
}


/// The mirror tracks the registry event by event: a joined client whose
/// mirror equals the registry, on applying any message an event broadcasts
/// (the private init snapshot goes to a client that is not joined yet and is
/// covered by `lemma_snapshot_replaces_mirror`), holds the stepped registry
/// as its new mirror. Under the channel's ordering guarantee the mirror is
/// therefore eventually consistent with the registry.
pub proof fn lemma_mirror_tracks_registry(
    r: RegistryView,
    c: ClientView,
    e: EventView,
    k: int,
)
    requires
        reg_wf(r),
        c.state == ConnectionState::Joined,
        c.mirror == r.clients,
        0 <= k < event_sends(r, e).len(),
        !(event_sends(r, e)[k].1 is Snapshot),
    ensures
        client_step(c, event_sends(r, e)[k].1).mirror == step(
            r,
            e,
        ).clients,
{
    let sends = event_sends(r, e);
    let m = sends[k].1;
    match e {
        EventView::Connect { .. } => {
            assert(sends.len() == 0);
        },
        EventView::Init { addr, nick } => {
            assert(init_accepted(r, addr));
            let bc = to_all(
                r.clients,
                SrvMsgView::Connected { addr, nick },
            );
            if k < bc.len() {
                assert(m == (SrvMsgView::Connected { addr, nick }));
                assert(!has_key(c.mirror, addr));
                assert(client_step(c, m).mirror == c.mirror.push((addr, nick)));
            } else {
                assert(m == (SrvMsgView::Snapshot { clients: r.clients.push((addr, nick)) }));
            }
        },
        EventView::Message { addr, body } => {
            assert(has_key(r.clients, addr));
            assert(m == (SrvMsgView::Message { addr, body }));
        },
        EventView::Disconnect { addr, reason } => {
            assert(has_key(r.clients, addr));
            assert(m == (SrvMsgView::Disconnected { addr, reason }));
            assert(client_step(c, m).mirror == remove_key(c.mirror, addr));
        },
    }
}

} // verus!
