//! The two closed wire vocabularies: client-to-server and server-to-client
//! messages, with their mathematical views.
//!
//! Every wire interaction is one of these variants; consumption sites match
//! exhaustively so that a new variant cannot be silently ignored.

use vstd::prelude::*;

use crate::model::Addr;
use crate::model::DisconnectReason;
use crate::model::NickSeq;

verus! {

/// A message a client sends to the server.
#[derive(Debug, Clone, PartialEq, Eq)]
pub enum ClientMessages {
    /// An outgoing chat line; valid only after `Init` has been sent.
    Text(String),
    /// The first message a client must send after connecting; exactly once
    /// per session.
    Init { nick: String },
}

/// A message the server sends to a client.
#[derive(Debug, Clone, PartialEq, Eq)]
pub enum ServerMessages {
    /// A new client completed `Init`; sent to every other connected client.
    ClientConnected(Addr, String),
    /// A connection ended; sent to every remaining client.
    ClientDisconnected(Addr, DisconnectReason),
    /// A chat line from an initialized client; sent to every client.
    ClientMessage(Addr, String),
    /// The full registry snapshot; sent once, privately, to a newly joined
    /// client, and contains that client's own entry.
    InitClient { clients: Vec<(Addr, String)> },
}

/// The mathematical view of a `ClientMessages` value.
pub enum ClientMsgView {
    Text { body: Seq<char> },
    Init { nick: Seq<char> },
}

/// The mathematical view of a `ServerMessages` value.
pub enum SrvMsgView {
    Connected { addr: Addr, nick: Seq<char> },
    Disconnected { addr: Addr, reason: DisconnectReason },
    Message { addr: Addr, body: Seq<char> },
    Snapshot { clients: NickSeq },
}

/// The association-sequence view of an `(address, nickname)` vector.
pub open spec fn nicks_view(v: Seq<(Addr, String)>) -> NickSeq {
    v.map_values(|p: (Addr, String)| (p.0, p.1@))
}

impl View for ClientMessages {
    type V = ClientMsgView;

    open spec fn view(&self) -> ClientMsgView {
        match self {
            ClientMessages::Text(body) => ClientMsgView::Text { body: body@ },
            ClientMessages::Init { nick } => ClientMsgView::Init { nick: nick@ },
        }
    }
}

impl View for ServerMessages {
    type V = SrvMsgView;

    open spec fn view(&self) -> SrvMsgView {
        match self {
            ServerMessages::ClientConnected(a, nick) => (SrvMsgView::Connected {
                addr: *a,
                nick: nick@,
            }),
            ServerMessages::ClientDisconnected(a, reason) => (SrvMsgView::Disconnected {
                addr: *a,
                reason: *reason,
            }),
            ServerMessages::ClientMessage(a, body) => (SrvMsgView::Message {
                addr: *a,
                body: body@,
            }),
            ServerMessages::InitClient { clients } => (SrvMsgView::Snapshot {
                clients: nicks_view(clients@),
            }),
        }
    }
}

/// One message addressed to one peer: the unit the server's operations hand
/// back for the transport to deliver.
pub type OutSend = (Addr, ServerMessages);

/// The view of a pending send: destination address and message view.
pub open spec fn send_view(s: OutSend) -> (Addr, SrvMsgView) {
    (s.0, s.1@)
}

/// The view of a vector of pending sends.
pub open spec fn sends_view(v: Seq<OutSend>) -> Seq<(Addr, SrvMsgView)> {
    v.map_values(|s: OutSend| send_view(s))
}

} // verus!
