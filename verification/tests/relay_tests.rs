//! Registry bookkeeping, target filtering, and the agent session rules.

use forge::agent::{handle_packet, should_handle, wrap_event, AgentSession};
use forge::buffer::ReceiveBuffer;
use forge::codec::serialize;
use forge::config::ServerConfig;
use forge::messages::{ClientEvent, ClientPacket, ServerEvent, ServerPacket};
use forge::registry::Registry;

fn exec(command: &str) -> ServerEvent {
    ServerEvent::ExecCommand { command: command.to_string() }
}

#[test]
fn target_filtering() {
    let a = "a".to_string();
    let b = "b".to_string();
    let targeted = ServerPacket { name: Some("a".to_string()), event: exec("cmd") };
    assert!(should_handle(&targeted, &a));
    assert!(!should_handle(&targeted, &b));
    assert_eq!(handle_packet(&targeted, &a), Some("cmd".to_string()));
    assert_eq!(handle_packet(&targeted, &b), None);

    let broadcast = ServerPacket { name: None, event: exec("cmd") };
    assert!(should_handle(&broadcast, &a));
    assert!(should_handle(&broadcast, &b));
    assert_eq!(handle_packet(&broadcast, &b), Some("cmd".to_string()));
}

#[test]
fn registry_consistency_after_failed_writes() {
    let mut registry = Registry::new();
    let n = 5;
    for _ in 0..n {
        let id = registry.alloc_id();
        registry.push_stream(id);
    }
    assert_eq!(registry.len(), n);

    // Writes to connections 1 and 3 fail.
    let ok = vec![true, false, true, false, true];
    let removed = registry.apply_write_results(&ok);
    assert_eq!(registry.len(), n - 2);
    assert_eq!(removed, vec![1, 3]);
    for id in [0u64, 2, 4] {
        assert!(registry.contains(id));
    }
    for id in removed {
        assert!(!registry.contains(id));
    }
}

#[test]
fn registry_ids_are_never_reused() {
    let mut registry = Registry::new();
    let first = registry.alloc_id();
    registry.push_stream(first);
    registry.remove(first);
    let second = registry.alloc_id();
    registry.push_stream(second);
    assert_ne!(first, second);
    assert!(!registry.contains(first));
    assert!(registry.contains(second));
}

#[test]
fn registry_remove_touches_one_connection() {
    let mut registry = Registry::new();
    for _ in 0..3 {
        let id = registry.alloc_id();
        registry.push_stream(id);
    }
    registry.remove(1);
    assert_eq!(registry.len(), 2);
    assert!(registry.contains(0));
    assert!(!registry.contains(1));
    assert!(registry.contains(2));
    assert_eq!(registry.ids(), &vec![0, 2]);
}

#[test]
fn end_to_end_chat_then_command() {
    // Agent "server1" produces a chat event and sends it to the aggregator.
    let agent1 = AgentSession::new("server1".to_string());
    let chat = ClientEvent::ClientChat {
        name: "Alice".to_string(),
        uid: "1".to_string(),
        message: "hi".to_string(),
        is_team: false,
    };
    let frame = agent1.next_frame(chat.clone()).unwrap();

    // The aggregator decodes it unchanged from the stream.
    let mut server_decoder: ReceiveBuffer<ClientPacket> = ReceiveBuffer::new();
    let packets = server_decoder.read(&frame).unwrap();
    assert_eq!(packets, vec![ClientPacket { name: "server1".to_string(), event: chat }]);

    // The aggregator answers with a command targeted at "server1".
    let command = ServerPacket {
        name: Some("server1".to_string()),
        event: exec("say hello"),
    };
    let bytes = serialize(&command);

    let mut session1 = AgentSession::new("server1".to_string());
    assert_eq!(session1.on_bytes(&bytes), vec!["say hello".to_string()]);
    assert!(!session1.is_closed());

    // A second agent receives the same bytes and drops the packet.
    let mut session2 = AgentSession::new("server2".to_string());
    assert_eq!(session2.on_bytes(&bytes), Vec::<String>::new());
    assert!(!session2.is_closed());
}

#[test]
fn severed_connection_closes_session_and_reconnects() {
    // The read side reports end of stream: the session closes.
    let mut session = AgentSession::new("server1".to_string());
    assert_eq!(session.on_bytes(&[]), Vec::<String>::new());
    assert!(session.is_closed());

    // The aggregator reaps the matching registry entry.
    let mut registry = Registry::new();
    let id = registry.alloc_id();
    registry.push_stream(id);
    registry.remove(id);
    assert_eq!(registry.len(), 0);

    // The outer loop reconnects with a fresh session and resumes sending.
    let session = AgentSession::new("server1".to_string());
    assert!(!session.is_closed());
    let event = ClientEvent::GameStart { map: "mp_glitch".to_string(), mode: "ttdm".to_string() };
    assert!(session.next_frame(event).is_some());
}

#[test]
fn write_error_closes_session() {
    let mut session = AgentSession::new("s".to_string());
    assert!(!session.is_closed());
    session.on_write_error();
    assert!(session.is_closed());
}

#[test]
fn malformed_stream_closes_session() {
    let mut session = AgentSession::new("s".to_string());
    let bytes = vec![1u8, 0, 0, 0, 7u8];
    assert_eq!(session.on_bytes(&bytes), Vec::<String>::new());
    assert!(session.is_closed());
}

#[test]
fn wrap_event_carries_identity() {
    let identity = "server9".to_string();
    let event = ClientEvent::ClientConnecting { name: "Bob".to_string(), uid: "2".to_string() };
    let packet = wrap_event(&identity, event.clone());
    assert_eq!(packet, ClientPacket { name: identity, event });
}

#[test]
fn describe_lines() {
    let event = ClientEvent::GameStart { map: "mp_glitch".to_string(), mode: "aitdm".to_string() };
    assert_eq!(event.describe(), "GameStart map=mp_glitch, mode=aitdm");
    let event = ClientEvent::ClientChat {
        name: "Alice".to_string(),
        uid: "1".to_string(),
        message: "hi".to_string(),
        is_team: true,
    };
    assert_eq!(event.describe(), "ClientChat name=Alice, uid=1, message=hi");
    assert_eq!(exec("say hi").describe(), "ExecCommand command=say hi");
}

#[test]
fn server_config_holds_channel() {
    let config = ServerConfig::new(17);
    assert_eq!(config.channel, 17);
}
