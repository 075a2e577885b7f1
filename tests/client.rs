use fiesta_net::{
    route, BinaryReadable, EventTarget, FiestaHandler, FiestaNetworkClient, FiestaPacket, Interest,
    PacketProcessingInfo, ReadOutcome, WriteOutcome, SERVER_TOKEN,
};

fn payload_of(p: &mut FiestaPacket) -> Vec<u8> {
    let n = p.data.bytes_remaining();
    p.data.read_bytes(n).unwrap()
}

#[test]
fn short_length_frame() {
    let mut c = FiestaNetworkClient::new(1);
    let bytes = vec![0x05, 0x00, 0x01, 0x41, 0x42, 0x43, 0x44, 0x45];
    assert!(!c.readable(ReadOutcome::Received(bytes)));
    let mut packets = c.take_packets();
    assert_eq!(packets.len(), 1);
    assert_eq!(packets[0].header, 1);
    assert_eq!(payload_of(&mut packets[0]), b"ABCDE".to_vec());
    assert_eq!(c.inbound_len(), 0);
    assert_eq!(c.queued_packets(), 0);
}

#[test]
fn extended_length_frame() {
    let mut c = FiestaNetworkClient::new(1);
    let mut bytes = vec![0x00, 0x01, 0x00, 0x00, 0x02];
    bytes.extend((0..260u32).map(|i| (i % 256) as u8));
    assert!(!c.readable(ReadOutcome::Received(bytes)));
    let mut packets = c.take_packets();
    assert_eq!(packets.len(), 1);
    assert_eq!(packets[0].header, 2);
    let payload = payload_of(&mut packets[0]);
    assert_eq!(payload.len(), 256);
    assert_eq!(payload, (0..256u32).map(|i| i as u8).collect::<Vec<u8>>());
    assert_eq!(c.inbound_len(), 4);
}

#[test]
fn oversized_extended_length_is_empty_frame() {
    let mut c = FiestaNetworkClient::new(1);
    // 3000 = 0x0bb8, above the ceiling
    let bytes = vec![0x00, 0x0b, 0xb8, 0x00, 0x07, 0xaa];
    assert!(!c.readable(ReadOutcome::Received(bytes)));
    let mut packets = c.take_packets();
    assert_eq!(packets.len(), 1);
    assert_eq!(packets[0].header, 7);
    assert_eq!(packets[0].data.bytes_remaining(), 0);
    assert_eq!(payload_of(&mut packets[0]), Vec::<u8>::new());
    assert_eq!(c.inbound_len(), 1);
    assert!(c.alive());
}

#[test]
fn several_frames_in_one_read() {
    let mut c = FiestaNetworkClient::new(3);
    let bytes = vec![0x01, 0x00, 0x09, 0x61, 0x02, 0x01, 0x00, 0x62, 0x63, 0x04];
    assert!(!c.readable(ReadOutcome::Received(bytes)));
    assert_eq!(c.queued_packets(), 2);
    let mut packets = c.take_packets();
    assert_eq!(packets[0].header, 9);
    assert_eq!(payload_of(&mut packets[0]), b"a".to_vec());
    assert_eq!(packets[1].header, 0x0100);
    assert_eq!(payload_of(&mut packets[1]), b"bc".to_vec());
    assert_eq!(c.inbound_len(), 1);
}

#[test]
fn zero_byte_read_disconnects() {
    let mut c = FiestaNetworkClient::new(1);
    assert!(c.readable(ReadOutcome::Received(Vec::new())));
    assert!(!c.alive());
    assert_eq!(c.append_send(&[1, 2]), 0);
    assert_eq!(c.writeable(), None);
    assert!(c.written(WriteOutcome::Sent(2)));
    assert_eq!(c.outbound_len(), 2);
}

#[test]
fn read_error_disconnects() {
    let mut c = FiestaNetworkClient::new(1);
    assert!(c.readable(ReadOutcome::Failed));
    assert!(!c.alive());
    assert!(c.readable(ReadOutcome::Received(vec![1, 0, 1, 5])));
    assert_eq!(c.queued_packets(), 0);
    assert_eq!(c.inbound_len(), 0);
}

#[test]
fn would_block_is_not_a_disconnect() {
    let mut c = FiestaNetworkClient::new(1);
    assert!(!c.readable(ReadOutcome::WouldBlock));
    assert!(c.alive());
    assert!(!c.written(WriteOutcome::WouldBlock));
    assert!(c.alive());
}

#[test]
fn frame_fed_byte_by_byte() {
    let mut c = FiestaNetworkClient::new(1);
    let frame = vec![0x03, 0x12, 0x34, 0x0a, 0x0b, 0x0c];
    for (i, byte) in frame.iter().enumerate() {
        assert!(!c.readable(ReadOutcome::Received(vec![*byte])));
        c.read_next_packet();
        if i + 1 < frame.len() {
            assert!(!c.can_read_next_packet());
            assert_eq!(c.queued_packets(), 0);
            assert_eq!(c.inbound_len(), i + 1);
        }
    }
    assert_eq!(c.queued_packets(), 1);
    let mut packets = c.take_packets();
    assert_eq!(packets[0].header, 0x1234);
    assert_eq!(payload_of(&mut packets[0]), vec![0x0a, 0x0b, 0x0c]);
}

#[test]
fn extended_frame_fed_byte_by_byte() {
    let mut c = FiestaNetworkClient::new(1);
    let mut frame = vec![0x00, 0x01, 0x2c, 0x00, 0x05];
    frame.extend(std::iter::repeat(0x5a).take(300));
    for (i, byte) in frame.iter().enumerate() {
        assert!(!c.readable(ReadOutcome::Received(vec![*byte])));
        let expected = if i + 1 == frame.len() { 1 } else { 0 };
        assert_eq!(c.queued_packets(), expected);
    }
    assert_eq!(c.inbound_len(), 0);
}

#[test]
fn writeable_offers_a_window_and_written_advances() {
    let mut c = FiestaNetworkClient::new(1);
    let data: Vec<u8> = (0..1500u32).map(|i| (i % 256) as u8).collect();
    assert_eq!(c.append_send(&data), 0);
    assert_eq!(c.interest(), Interest { readable: true, writable: true });
    let chunk = c.writeable().unwrap();
    assert_eq!(chunk.len(), 1024);
    assert_eq!(chunk[..], data[..1024]);
    assert!(!c.written(WriteOutcome::Sent(1000)));
    assert_eq!(c.outbound_len(), 500);
    let chunk = c.writeable().unwrap();
    assert_eq!(chunk[..], data[1000..]);
    assert!(!c.written(WriteOutcome::Sent(500)));
    assert_eq!(c.writeable(), None);
    assert_eq!(c.interest(), Interest { readable: true, writable: false });
    assert_eq!(c.append_send(&[1]), 0);
    assert_eq!(c.interest(), Interest { readable: true, writable: true });
}

#[test]
fn zero_byte_write_drops_writable_only() {
    let mut c = FiestaNetworkClient::new(1);
    c.append_send(&[1, 2, 3]);
    assert!(c.writeable().is_some());
    assert!(!c.written(WriteOutcome::Sent(0)));
    assert!(c.alive());
    assert_eq!(c.interest(), Interest { readable: true, writable: false });
    assert_eq!(c.outbound_len(), 3);
}

#[test]
fn write_error_disconnects() {
    let mut c = FiestaNetworkClient::new(1);
    c.append_send(&[1, 2, 3]);
    assert!(c.written(WriteOutcome::Failed));
    assert!(!c.alive());
}

#[test]
fn many_appends_are_all_kept() {
    let mut c = FiestaNetworkClient::new(1);
    let mut total = 0;
    for i in 0..200usize {
        let chunk = vec![i as u8; i % 17 + 1];
        total += chunk.len();
        assert_eq!(c.append_send(&chunk), 0);
    }
    assert_eq!(c.outbound_len(), total);
}

#[test]
fn new_connection_state() {
    let c = FiestaNetworkClient::new(42);
    assert_eq!(c.id(), 42);
    assert!(c.alive());
    assert_eq!(c.interest(), Interest::all());
    assert_eq!(c.inbound_len(), 0);
    assert_eq!(c.outbound_len(), 0);
}

#[test]
fn packet_new_is_empty() {
    let p = FiestaPacket::new(7, 10);
    assert_eq!(p.header, 7);
    assert_eq!(p.data.bytes_remaining(), 0);
    assert_eq!(p.data.capacity(), 10);
    let info = PacketProcessingInfo::new(p, 5u32);
    assert_eq!(info.client, 5);
    assert_eq!(info.packet.header, 7);
}

#[test]
fn tokens_are_monotonic_and_retired_on_disconnect() {
    let mut h: FiestaHandler<&str> = FiestaHandler::new();
    assert_eq!(h.get_current_token(), SERVER_TOKEN);
    let a = h.get_next_token().unwrap();
    h.insert_client(a, "a");
    let b = h.get_next_token().unwrap();
    h.insert_client(b, "b");
    assert_eq!((a, b), (1, 2));
    assert_eq!(h.connections(), 2);
    assert_eq!(h.client(a), Some(&"a"));
    assert_eq!(h.conclude(a, false), None);
    assert_eq!(h.connections(), 2);
    assert_eq!(h.conclude(a, true), Some("a"));
    assert_eq!(h.client(a), None);
    assert_eq!(h.get_next_token(), Some(3));
    assert_eq!(h.get_current_token(), 3);
}

#[test]
fn events_are_routed_by_token() {
    assert_eq!(route(SERVER_TOKEN), EventTarget::Listener);
    assert_eq!(route(4), EventTarget::Connection(4));
}
