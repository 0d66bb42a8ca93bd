//! Framing and payload codec behaviour, exercised through the public API.

use forge::buffer::{ReadError, ReceiveBuffer};
use forge::codec::serialize;
use forge::messages::{ClientEvent, ClientPacket, ServerEvent, ServerPacket};

fn chat_packet() -> ClientPacket {
    ClientPacket {
        name: "server1".to_string(),
        event: ClientEvent::ClientChat {
            name: "Alice".to_string(),
            uid: "1".to_string(),
            message: "hi".to_string(),
            is_team: false,
        },
    }
}

#[test]
fn round_trip_single_chunk() {
    let packet = chat_packet();
    let frame = serialize(&packet);
    let mut buffer: ReceiveBuffer<ClientPacket> = ReceiveBuffer::new();
    let decoded = buffer.read(&frame).unwrap();
    assert_eq!(decoded, vec![packet]);
}

#[test]
fn round_trip_every_client_event_variant() {
    let events = vec![
        ClientEvent::GameStart { map: "mp_glitch".to_string(), mode: "aitdm".to_string() },
        ClientEvent::ClientConnecting { name: "Bob".to_string(), uid: "42".to_string() },
        ClientEvent::ClientDisconnected { name: "Bob".to_string(), uid: "42".to_string() },
        ClientEvent::ClientChat {
            name: "Cara".to_string(),
            uid: "7".to_string(),
            message: "team up".to_string(),
            is_team: true,
        },
    ];
    for event in events {
        let packet = ClientPacket { name: "s".to_string(), event };
        let frame = serialize(&packet);
        let mut buffer: ReceiveBuffer<ClientPacket> = ReceiveBuffer::new();
        assert_eq!(buffer.read(&frame).unwrap(), vec![packet]);
    }
}

#[test]
fn round_trip_server_packets() {
    for name in [None, Some("server1".to_string())] {
        let packet = ServerPacket {
            name,
            event: ServerEvent::ExecCommand { command: "say hello".to_string() },
        };
        let frame = serialize(&packet);
        let mut buffer: ReceiveBuffer<ServerPacket> = ReceiveBuffer::new();
        assert_eq!(buffer.read(&frame).unwrap(), vec![packet]);
    }
}

#[test]
fn round_trip_empty_strings() {
    let packet = ClientPacket {
        name: String::new(),
        event: ClientEvent::GameStart { map: String::new(), mode: String::new() },
    };
    let frame = serialize(&packet);
    let mut buffer: ReceiveBuffer<ClientPacket> = ReceiveBuffer::new();
    assert_eq!(buffer.read(&frame).unwrap(), vec![packet]);
}

#[test]
fn round_trip_multibyte_text() {
    let packet = ClientPacket {
        name: "sérvêr".to_string(),
        event: ClientEvent::ClientChat {
            name: "Åsa".to_string(),
            uid: "9".to_string(),
            message: "héllo ✓ 🚀".to_string(),
            is_team: false,
        },
    };
    let frame = serialize(&packet);
    let mut buffer: ReceiveBuffer<ClientPacket> = ReceiveBuffer::new();
    assert_eq!(buffer.read(&frame).unwrap(), vec![packet]);
}

#[test]
fn fragmentation_invariance_byte_by_byte() {
    let packet = chat_packet();
    let frame = serialize(&packet);
    let mut buffer: ReceiveBuffer<ClientPacket> = ReceiveBuffer::new();
    let mut decoded = Vec::new();
    for byte in &frame {
        decoded.extend(buffer.read(std::slice::from_ref(byte)).unwrap());
    }
    assert_eq!(decoded, vec![packet]);
}

#[test]
fn fragmentation_invariance_odd_splits() {
    let packet = chat_packet();
    let frame = serialize(&packet);
    for at in 1..frame.len() {
        let mut buffer: ReceiveBuffer<ClientPacket> = ReceiveBuffer::new();
        let mut decoded = Vec::new();
        decoded.extend(buffer.read(&frame[..at]).unwrap());
        decoded.extend(buffer.read(&frame[at..]).unwrap());
        assert_eq!(decoded, vec![packet.clone()], "split at {at}");
    }
}

#[test]
fn multi_frame_batching() {
    let p1 = ClientPacket {
        name: "a".to_string(),
        event: ClientEvent::GameStart { map: "m1".to_string(), mode: "x".to_string() },
    };
    let p2 = ClientPacket {
        name: "b".to_string(),
        event: ClientEvent::ClientConnecting { name: "Bob".to_string(), uid: "2".to_string() },
    };
    let mut bytes = serialize(&p1);
    bytes.extend_from_slice(&serialize(&p2));
    let mut buffer: ReceiveBuffer<ClientPacket> = ReceiveBuffer::new();
    assert_eq!(buffer.read(&bytes).unwrap(), vec![p1, p2]);
}

#[test]
fn partial_frame_buffering() {
    let packet = chat_packet();
    let frame = serialize(&packet);
    let (head, last) = frame.split_at(frame.len() - 1);
    let mut buffer: ReceiveBuffer<ClientPacket> = ReceiveBuffer::new();
    assert_eq!(buffer.read(head).unwrap(), vec![]);
    assert_eq!(buffer.read(last).unwrap(), vec![packet]);
}

#[test]
fn end_of_stream_is_an_error() {
    let mut buffer: ReceiveBuffer<ClientPacket> = ReceiveBuffer::new();
    assert_eq!(buffer.read(&[]), Err(ReadError::EndOfStream));
}

#[test]
fn malformed_payload_is_an_error() {
    // A complete frame whose payload is no encoding at all (tag byte 9).
    let mut bytes = vec![3u8, 0, 0, 0];
    bytes.extend_from_slice(&[9u8, 9, 9]);
    let mut buffer: ReceiveBuffer<ClientPacket> = ReceiveBuffer::new();
    assert_eq!(buffer.read(&bytes), Err(ReadError::MalformedPayload));
}

#[test]
fn truncated_payload_is_rejected() {
    // The frame declares more payload than one string needs: trailing bytes
    // after a parsed packet are a protocol violation.
    let good = serialize(&ServerPacket {
        name: None,
        event: ServerEvent::ExecCommand { command: "x".to_string() },
    });
    let mut bytes = Vec::new();
    let payload_len = (good.len() - 4 + 1) as u32;
    bytes.extend_from_slice(&payload_len.to_le_bytes());
    bytes.extend_from_slice(&good[4..]);
    bytes.push(0);
    let mut buffer: ReceiveBuffer<ServerPacket> = ReceiveBuffer::new();
    assert_eq!(buffer.read(&bytes), Err(ReadError::MalformedPayload));
}

#[test]
fn invalid_utf8_is_malformed() {
    // A client packet whose name claims one byte that is not UTF-8.
    let payload = vec![1u8, 0, 0, 0, 0xFF];
    let mut bytes = vec![payload.len() as u8, 0, 0, 0];
    bytes.extend_from_slice(&payload);
    let mut buffer: ReceiveBuffer<ClientPacket> = ReceiveBuffer::new();
    assert_eq!(buffer.read(&bytes), Err(ReadError::MalformedPayload));
}

#[test]
fn out_of_range_boolean_is_malformed() {
    // An empty-string chat event whose team flag byte is 2.
    let mut payload = vec![0u8, 0, 0, 0];
    payload.push(3);
    payload.extend_from_slice(&[0, 0, 0, 0, 0, 0, 0, 0, 0, 0, 0, 0]);
    payload.push(2);
    let mut bytes = vec![payload.len() as u8, 0, 0, 0];
    bytes.extend_from_slice(&payload);
    let mut buffer: ReceiveBuffer<ClientPacket> = ReceiveBuffer::new();
    assert_eq!(buffer.read(&bytes), Err(ReadError::MalformedPayload));
}

#[test]
fn wire_format_is_stable() {
    // [payload len LE] [name tag 0] [event tag 0] [command len LE] [command]
    let frame = serialize(&ServerPacket {
        name: None,
        event: ServerEvent::ExecCommand { command: "hi".to_string() },
    });
    assert_eq!(frame, vec![8, 0, 0, 0, 0, 0, 2, 0, 0, 0, b'h', b'i']);
}

#[test]
fn two_phase_read_matches_single_read() {
    let packet = chat_packet();
    let frame = serialize(&packet);
    let (a, b) = frame.split_at(5);

    let mut buffer: ReceiveBuffer<ClientPacket> = ReceiveBuffer::new();
    let mut read = buffer.start_read();
    read.data(a);
    read.data(b);
    assert_eq!(read.finish(&mut buffer).unwrap(), vec![packet]);
}
