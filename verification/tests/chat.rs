use demo_chat::app::{App, AppType};
use demo_chat::channel::{reliable_channels_config, RELIABLE_RESEND_MS};
use demo_chat::client::{ChatApp, ConnectionState};
use demo_chat::messages::{ClientMessages, ServerMessages};
use demo_chat::model::{Addr, DisconnectReason};
use demo_chat::server::{Registry, ServerEvent};

fn addr(id: u64) -> Addr {
    Addr { id }
}

#[test]
fn init_registers_and_snapshots_include_self() {
    let mut reg = Registry::new();
    let a = addr(1);
    reg.on_connect(a);
    let sends = reg.on_init(a, "alice".to_string());
    assert_eq!(reg.clients_entries(), &vec![(a, "alice".to_string())]);
    // Nobody else is registered, so the only send is the private snapshot,
    // and it contains the joiner's own entry.
    assert_eq!(
        sends,
        vec![(
            a,
            ServerMessages::InitClient { clients: vec![(a, "alice".to_string())] }
        )]
    );
}

#[test]
fn second_client_join_broadcasts_and_snapshots() {
    let mut reg = Registry::new();
    let a = addr(1);
    let b = addr(2);
    reg.on_connect(a);
    reg.on_init(a, "alice".to_string());
    reg.on_connect(b);
    let sends = reg.on_init(b, "bob".to_string());
    assert_eq!(
        reg.clients_entries(),
        &vec![(a, "alice".to_string()), (b, "bob".to_string())]
    );
    assert_eq!(sends.len(), 2);
    assert_eq!(sends[0], (a, ServerMessages::ClientConnected(b, "bob".to_string())));
    assert_eq!(
        sends[1],
        (
            b,
            ServerMessages::InitClient {
                clients: vec![(a, "alice".to_string()), (b, "bob".to_string())]
            }
        )
    );
}

#[test]
fn text_is_broadcast_to_all_clients() {
    let mut reg = Registry::new();
    let a = addr(1);
    let b = addr(2);
    reg.on_connect(a);
    reg.on_init(a, "alice".to_string());
    reg.on_connect(b);
    reg.on_init(b, "bob".to_string());
    let sends = reg.on_message(a, "hi".to_string());
    assert_eq!(
        sends,
        vec![
            (a, ServerMessages::ClientMessage(a, "hi".to_string())),
            (b, ServerMessages::ClientMessage(a, "hi".to_string())),
        ]
    );
}

#[test]
fn message_from_unknown_address_is_dropped() {
    let mut reg = Registry::new();
    let a = addr(1);
    reg.on_connect(a);
    reg.on_init(a, "alice".to_string());
    // Never connected, never initialized.
    let sends = reg.on_message(addr(9), "hello".to_string());
    assert_eq!(sends, vec![]);
    // Connected but not initialized: still dropped.
    let c = addr(3);
    reg.on_connect(c);
    let sends = reg.on_message(c, "hello".to_string());
    assert_eq!(sends, vec![]);
}

#[test]
fn disconnect_removes_and_notifies_remaining() {
    let mut reg = Registry::new();
    let a = addr(1);
    let b = addr(2);
    reg.on_connect(a);
    reg.on_init(a, "alice".to_string());
    reg.on_connect(b);
    reg.on_init(b, "bob".to_string());
    let sends = reg.on_disconnect(b, DisconnectReason::Timeout);
    assert_eq!(reg.clients_entries(), &vec![(a, "alice".to_string())]);
    assert_eq!(
        sends,
        vec![(a, ServerMessages::ClientDisconnected(b, DisconnectReason::Timeout))]
    );
    // Idempotent: a second disconnect changes nothing and notifies nobody.
    let sends = reg.on_disconnect(b, DisconnectReason::Timeout);
    assert_eq!(reg.clients_entries(), &vec![(a, "alice".to_string())]);
    assert_eq!(sends, vec![]);
}

#[test]
fn duplicate_init_is_ignored() {
    let mut reg = Registry::new();
    let a = addr(1);
    reg.on_connect(a);
    reg.on_init(a, "alice".to_string());
    let sends = reg.on_init(a, "impostor".to_string());
    assert_eq!(sends, vec![]);
    assert_eq!(reg.clients_entries(), &vec![(a, "alice".to_string())]);
}

#[test]
fn init_without_connect_is_ignored() {
    let mut reg = Registry::new();
    let sends = reg.on_init(addr(7), "ghost".to_string());
    assert_eq!(sends, vec![]);
    assert_eq!(reg.clients_entries(), &vec![]);
}

#[test]
fn reused_address_is_a_fresh_session() {
    let mut reg = Registry::new();
    let a = addr(1);
    let b = addr(2);
    reg.on_connect(a);
    reg.on_init(a, "alice".to_string());
    reg.on_connect(b);
    reg.on_init(b, "bob".to_string());
    reg.on_disconnect(b, DisconnectReason::ClosedByPeer);
    // No residual state: the reused address must connect and init anew.
    let sends = reg.on_init(b, "bobby".to_string());
    assert_eq!(sends, vec![]);
    assert_eq!(reg.on_message(b, "hi again".to_string()), vec![]);
    reg.on_connect(b);
    reg.on_init(b, "bobby".to_string());
    assert_eq!(
        reg.clients_entries(),
        &vec![(a, "alice".to_string()), (b, "bobby".to_string())]
    );
}

#[test]
fn replay_matches_stepwise_calls() {
    let a = addr(1);
    let b = addr(2);
    let events = vec![
        ServerEvent::Connect(a),
        ServerEvent::Init(a, "alice".to_string()),
        ServerEvent::Connect(b),
        ServerEvent::Init(b, "bob".to_string()),
        ServerEvent::Message(a, "hi".to_string()),
        ServerEvent::Disconnect(b, DisconnectReason::Timeout),
        ServerEvent::Disconnect(b, DisconnectReason::Timeout),
    ];
    let mut reg = Registry::new();
    let outs = reg.replay(&events);
    assert_eq!(reg.clients_entries(), &vec![(a, "alice".to_string())]);
    assert_eq!(outs.len(), events.len());
    assert_eq!(outs[0], vec![]);
    assert_eq!(outs[4].len(), 2);
    // Double disconnect: the registry is unchanged after the first, and the
    // second produces no sends at all.
    assert_eq!(outs[5].len(), 1);
    assert_eq!(outs[6], vec![]);
}

#[test]
fn one_sender_texts_arrive_in_order() {
    let a = addr(1);
    let b = addr(2);
    let events = vec![
        ServerEvent::Connect(a),
        ServerEvent::Init(a, "alice".to_string()),
        ServerEvent::Connect(b),
        ServerEvent::Init(b, "bob".to_string()),
        ServerEvent::Message(a, "a".to_string()),
        ServerEvent::Message(b, "noise".to_string()),
        ServerEvent::Message(a, "b".to_string()),
    ];
    let mut reg = Registry::new();
    let outs = reg.replay(&events);
    // Flatten the outbox as it is emitted and find b's copies of the two
    // texts from a: the first must stand strictly before the second.
    let flat: Vec<(Addr, ServerMessages)> = outs.into_iter().flatten().collect();
    let first = flat
        .iter()
        .position(|s| *s == (b, ServerMessages::ClientMessage(a, "a".to_string())))
        .unwrap();
    let second = flat
        .iter()
        .position(|s| *s == (b, ServerMessages::ClientMessage(a, "b".to_string())))
        .unwrap();
    assert!(first < second);
}

#[test]
fn client_joins_through_the_state_machine() {
    let mut client = ChatApp::new("alice".to_string());
    assert_eq!(client.state(), ConnectionState::Disconnected);
    assert_eq!(client.submit_text("too early".to_string()), None);

    client.connect();
    assert_eq!(client.state(), ConnectionState::Connecting);
    assert_eq!(client.submit_text("still early".to_string()), None);

    let init = client.transport_connected();
    assert_eq!(init, Some(ClientMessages::Init { nick: "alice".to_string() }));
    assert_eq!(client.state(), ConnectionState::AwaitingInit);

    let a = addr(1);
    let b = addr(2);
    client.on_server_message(ServerMessages::InitClient {
        clients: vec![(a, "alice".to_string()), (b, "bob".to_string())],
    });
    assert_eq!(client.state(), ConnectionState::Joined);
    assert_eq!(
        client.mirror_entries(),
        &vec![(a, "alice".to_string()), (b, "bob".to_string())]
    );
    assert_eq!(
        client.submit_text("hi".to_string()),
        Some(ClientMessages::Text("hi".to_string()))
    );
}

#[test]
fn client_mirror_follows_events() {
    let a = addr(1);
    let b = addr(2);
    let c = addr(3);
    let mut client = ChatApp::new("alice".to_string());
    client.connect();
    client.transport_connected();
    client.on_server_message(ServerMessages::InitClient {
        clients: vec![(a, "alice".to_string())],
    });
    client.on_server_message(ServerMessages::ClientConnected(b, "bob".to_string()));
    client.on_server_message(ServerMessages::ClientConnected(c, "carol".to_string()));
    // A repeated connection event for a known address changes nothing.
    client.on_server_message(ServerMessages::ClientConnected(b, "other".to_string()));
    assert_eq!(
        client.mirror_entries(),
        &vec![
            (a, "alice".to_string()),
            (b, "bob".to_string()),
            (c, "carol".to_string())
        ]
    );
    client.on_server_message(ServerMessages::ClientDisconnected(
        b,
        DisconnectReason::Timeout,
    ));
    assert_eq!(
        client.mirror_entries(),
        &vec![(a, "alice".to_string()), (c, "carol".to_string())]
    );
    client.on_server_message(ServerMessages::ClientMessage(c, "hello".to_string()));
    assert_eq!(client.history_entries(), &vec![(c, "hello".to_string())]);
    client.transport_disconnected();
    assert_eq!(client.state(), ConnectionState::Disconnected);
    assert_eq!(client.mirror_entries(), &vec![]);
    // The history is kept for display.
    assert_eq!(client.history_entries(), &vec![(c, "hello".to_string())]);
}

#[test]
fn client_drops_messages_outside_protocol() {
    let a = addr(1);
    let mut client = ChatApp::new("alice".to_string());
    // Events before the snapshot are dropped.
    client.connect();
    client.transport_connected();
    client.on_server_message(ServerMessages::ClientConnected(a, "bob".to_string()));
    assert_eq!(client.mirror_entries(), &vec![]);
    assert_eq!(client.state(), ConnectionState::AwaitingInit);
    // A snapshot with a repeated address keeps the first entry.
    client.on_server_message(ServerMessages::InitClient {
        clients: vec![(a, "first".to_string()), (a, "second".to_string())],
    });
    assert_eq!(client.mirror_entries(), &vec![(a, "first".to_string())]);
    // A second snapshot when already joined is dropped.
    client.on_server_message(ServerMessages::InitClient { clients: vec![] });
    assert_eq!(client.mirror_entries(), &vec![(a, "first".to_string())]);
}

#[test]
fn channel_table_is_one_reliable_channel_at_500ms() {
    let channels = reliable_channels_config();
    assert_eq!(channels.len(), 1);
    assert_eq!(
        channels[0].message_resend_time,
        std::time::Duration::from_millis(RELIABLE_RESEND_MS)
    );
    assert_eq!(channels[0].channel_id, 0);
}

#[test]
fn app_starts_on_the_chat_pane() {
    let mut app = App::new();
    assert_eq!(app.application, AppType::ChatApp);
    assert_eq!(app.chat_app.state(), ConnectionState::Disconnected);
    app.select(AppType::LoggerApp);
    assert_eq!(app.application, AppType::LoggerApp);
    app.select(AppType::ChatApp);
    assert_eq!(app.application, AppType::ChatApp);
}

#[test]
fn client_mirror_matches_registry_after_events() {
    let a = addr(1);
    let b = addr(2);
    let mut reg = Registry::new();
    let mut client_a = ChatApp::new("alice".to_string());
    client_a.connect();
    client_a.transport_connected();
    reg.on_connect(a);
    for (dest, m) in reg.on_init(a, "alice".to_string()) {
        if dest == a {
            client_a.on_server_message(m);
        }
    }
    assert_eq!(client_a.mirror_entries(), reg.clients_entries());
    reg.on_connect(b);
    for (dest, m) in reg.on_init(b, "bob".to_string()) {
        if dest == a {
            client_a.on_server_message(m);
        }
    }
    assert_eq!(client_a.mirror_entries(), reg.clients_entries());
    for (dest, m) in reg.on_disconnect(b, DisconnectReason::Timeout) {
        if dest == a {
            client_a.on_server_message(m);
        }
    }
    assert_eq!(client_a.mirror_entries(), reg.clients_entries());
}
