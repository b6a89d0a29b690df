use raknet::generic::events::{DisconnectReason, RakNetEvent};
use raknet::net::stream::{NetworkStatus, RakStream};
use raknet::protocol::frame::read_frame;
use raknet::net::{check_timeout, client_read_udp, connection_tick, flush_batch, flush_receipts};
use raknet::protocol::binary::{Error, Magic, Reader, SystemAddresses, UDPAddress};
use raknet::protocol::message::Message;
use raknet::protocol::reliability::Reliability;

fn peer() -> UDPAddress {
    UDPAddress::V4 { ip: 0x0a00_0001, port: 4000 }
}

fn stream(mtu: usize) -> RakStream {
    RakStream::new(peer(), mtu, 0)
}

fn game(data: &[u8]) -> Message {
    Message::GamePacket { data: data.to_vec() }
}

fn sequence_of(datagram: &[u8]) -> u32 {
    assert_eq!(datagram[0], 0x84);
    datagram[1] as u32 | (datagram[2] as u32) << 8 | (datagram[3] as u32) << 16
}

#[test]
fn new_stream_clamps_the_mtu() {
    assert_eq!(stream(1400).mtu_size, 1400);
    assert_eq!(stream(0).mtu_size, 53);
    assert_eq!(stream(52).mtu_size, 53);
    assert_eq!(stream(1501).mtu_size, 1500);
    assert_eq!(stream(usize::MAX).mtu_size, 1500);
    let fresh = RakStream::new(peer(), 1500, 77);
    assert_eq!(fresh.status, NetworkStatus { ping: 0, latency: 0, last_activity: 77 });
    assert_eq!(fresh.addr, peer());
    assert!(fresh.outbox.is_empty());
}

#[test]
fn unreliable_message_goes_out_at_once() {
    let mut s = stream(1500);
    s.encode(&Message::ConnectedPing { client_timestamp: 1 }, Reliability::Unreliable, 5);
    assert_eq!(
        s.take_outgoing(),
        vec![vec![0x84, 0, 0, 0, 0x00, 0x00, 0x48, 0x00, 0, 0, 0, 0, 0, 0, 0, 1]]
    );
    assert_eq!(s.sequence_number, 1);
    assert_eq!(s.order_index, 1);
    assert_eq!(s.message_index, 0);
    assert_eq!(s.recovery_window.unacknowledged.len(), 1);
    assert!(s.take_outgoing().is_empty());
}

#[test]
fn reliable_ordered_messages_are_batched() {
    let mut s = stream(1500);
    s.encode(&game(&[1, 2]), Reliability::ReliableOrdered, 0);
    s.encode(&game(&[3]), Reliability::ReliableOrdered, 0);
    assert!(s.outbox.is_empty());
    s.try_flush(9);
    let out = s.take_outgoing();
    assert_eq!(
        out,
        vec![vec![
            0x84, 0, 0, 0, 0x60, 0x00, 0x18, 0, 0, 0, 0, 0, 0, 0, 0xfe, 1, 2, 0x60, 0x00, 0x10, 1, 0,
            0, 1, 0, 0, 0, 0xfe, 3
        ]]
    );
    s.try_flush(10);
    assert!(s.outbox.is_empty());
    assert_eq!((s.sequence_number, s.message_index, s.order_index), (1, 2, 2));
}

#[test]
fn frame_headers_of_every_class() {
    let expected: [(Reliability, Vec<u8>); 5] = [
        (Reliability::Unreliable, vec![0x00, 0, 8, 0x15]),
        (Reliability::UnreliableSequenced, vec![0x20, 0, 8, 0, 0, 0, 0, 0, 0, 0, 0x15]),
        (Reliability::Reliable, vec![0x40, 0, 8, 0, 0, 0, 0x15]),
        (Reliability::ReliableOrdered, vec![0x60, 0, 8, 0, 0, 0, 0, 0, 0, 0, 0x15]),
        (Reliability::ReliableSequenced, vec![0x80, 0, 8, 0, 0, 0, 0, 0, 0, 0, 0, 0, 0, 0x15]),
    ];
    for (class, frame) in expected {
        let mut s = stream(1500);
        s.encode(&Message::DisconnectNotification {}, class, 0);
        s.try_flush(0);
        let out = s.take_outgoing();
        assert_eq!(out.len(), 1);
        assert_eq!(&out[0][4..], &frame[..]);
    }
}

#[test]
fn counters_of_sequenced_and_reliable_frames() {
    let mut s = stream(1500);
    s.encode(&Message::DisconnectNotification {}, Reliability::ReliableSequenced, 0);
    s.encode(&Message::DisconnectNotification {}, Reliability::ReliableSequenced, 0);
    let out = s.take_outgoing();
    assert_eq!(
        &out[1][..],
        &[0x84, 1, 0, 0, 0x80, 0, 8, 1, 0, 0, 1, 0, 0, 1, 0, 0, 0, 0x15]
    );
    assert_eq!((s.message_index, s.sequence_index, s.order_index, s.split_id), (2, 2, 2, 0));
}

#[test]
fn batch_goes_out_before_a_frame_that_does_not_fit() {
    let mut s = stream(100);
    s.encode(&game(&[7; 40]), Reliability::ReliableOrdered, 0);
    assert!(s.outbox.is_empty());
    s.encode(&game(&[8; 5]), Reliability::ReliableOrdered, 0);
    assert!(s.outbox.is_empty());
    s.encode(&game(&[9; 5]), Reliability::ReliableOrdered, 0);
    let out = s.take_outgoing();
    assert_eq!(out.len(), 1);
    assert_eq!(out[0].len(), 4 + 10 + 41 + 10 + 6);
    s.try_flush(0);
    assert_eq!(s.take_outgoing()[0].len(), 4 + 10 + 6);
}

#[test]
fn long_message_is_cut_into_fragments() {
    let payload: Vec<u8> = (0..5000u32).map(|i| (i % 251) as u8).collect();
    let mut sender = stream(1500);
    sender.encode(&game(&payload), Reliability::ReliableOrdered, 0);
    sender.try_flush(0);
    let datagrams = sender.take_outgoing();
    assert_eq!(datagrams.len(), 4);
    assert_eq!(sender.split_id, 1);
    assert_eq!(sender.message_index, 4);
    assert_eq!(sender.order_index, 1);
    let mut whole = Vec::new();
    for (i, datagram) in datagrams.iter().enumerate() {
        assert_eq!(sequence_of(datagram), i as u32);
        assert!(datagram.len() <= 1500 - 28);
        let mut reader = Reader::new(&datagram[4..]);
        let frame = read_frame(&mut reader).unwrap();
        assert_eq!(reader.remaining(), 0);
        assert_eq!(datagram[4], 0x70);
        assert_eq!(frame.reliability, Reliability::ReliableOrdered);
        assert_eq!(frame.message_index, i as u32);
        assert_eq!(frame.split, Some((4, 0, i as u32)));
        assert_eq!(frame.content.len(), if i < 3 { 1448 } else { 5001 - 3 * 1448 });
        whole.extend_from_slice(frame.content);
    }
    assert_eq!(whole[0], 0xfe);
    assert_eq!(&whole[1..], &payload[..]);

    let mut receiver = stream(1500);
    let mut events = Vec::new();
    for datagram in [&datagrams[2], &datagrams[0], &datagrams[3]] {
        assert_eq!(receiver.decode(datagram, &mut events, 1, 10), Ok(()));
        assert!(events.is_empty());
    }
    assert_eq!(receiver.split_window.len(), 1);
    assert_eq!(receiver.decode(&datagrams[1], &mut events, 1, 10), Ok(()));
    assert_eq!(events, vec![RakNetEvent::IncomingBatch(1, payload)]);
    assert!(receiver.split_window.is_empty());
}

#[test]
fn fragment_counts() {
    for (len, mtu, frames) in [
        (1usize, 1500usize, 1usize),
        (1458, 1500, 1),
        (1459, 1500, 2),
        (1462, 1500, 2),
        (2896, 1500, 2),
        (2897, 1500, 3),
        (5001, 1500, 4),
        (11, 53, 1),
        (12, 53, 12),
        (100, 576, 1),
        (535, 576, 2),
    ] {
        let mut s = stream(mtu);
        s.encode(&game(&vec![0; len - 1]), Reliability::Reliable, 0);
        assert_eq!(s.take_outgoing().len(), frames);
        assert_eq!(s.split_id, if frames > 1 { 1 } else { 0 });
    }
}

#[test]
fn reliable_ordered_delivery_under_loss() {
    let mut sender = stream(1500);
    let mut receiver = stream(1500);
    let mut sent = Vec::new();
    for data in [&b"m1"[..], &b"m2"[..], &b"m3"[..]] {
        sender.encode(&game(data), Reliability::ReliableOrdered, 100);
        flush_batch(&mut sender, 100);
        sent.append(&mut sender.take_outgoing());
    }
    assert_eq!(sent.iter().map(|d| sequence_of(d)).collect::<Vec<u32>>(), vec![0, 1, 2]);

    let mut events = Vec::new();
    assert_eq!(receiver.decode(&sent[0], &mut events, 7, 150), Ok(()));
    assert_eq!(receiver.decode(&sent[2], &mut events, 7, 150), Ok(()));
    assert_eq!(
        events,
        vec![
            RakNetEvent::IncomingBatch(7, b"m1".to_vec()),
            RakNetEvent::IncomingBatch(7, b"m3".to_vec())
        ]
    );
    assert_eq!(receiver.status.last_activity, 150);

    flush_receipts(&mut receiver);
    let receipts = receiver.take_outgoing();
    assert_eq!(
        receipts,
        vec![vec![0xc0, 0, 2, 1, 0, 0, 0, 1, 2, 0, 0], vec![0xa0, 0, 1, 1, 1, 0, 0]]
    );
    flush_receipts(&mut receiver);
    assert!(receiver.take_outgoing().is_empty());

    let mut reports = Vec::new();
    assert_eq!(sender.decode(&receipts[0], &mut reports, 3, 200), Ok(()));
    assert_eq!(reports, vec![RakNetEvent::Latency(3, 100)]);
    assert_eq!(sender.status.latency, 100);
    assert_eq!(sender.recovery_window.unacknowledged.len(), 1);
    assert_eq!(sender.decode(&receipts[1], &mut reports, 3, 210), Ok(()));
    assert_eq!(reports.len(), 1);
    let again = sender.take_outgoing();
    assert_eq!(again.len(), 1);
    assert_eq!(sequence_of(&again[0]), 3);
    assert_eq!(&again[0][4..], &sent[1][4..]);
    assert!(sender.recovery_window.unacknowledged.contains_key(&3));
    assert!(!sender.recovery_window.unacknowledged.contains_key(&1));

    events.clear();
    assert_eq!(receiver.decode(&again[0], &mut events, 7, 260), Ok(()));
    assert_eq!(events, vec![RakNetEvent::IncomingBatch(7, b"m2".to_vec())]);
    events.clear();
    assert_eq!(receiver.decode(&again[0], &mut events, 7, 270), Ok(()));
    assert!(events.is_empty());
    flush_receipts(&mut receiver);
    assert_eq!(receiver.take_outgoing(), vec![vec![0xc0, 0, 1, 1, 3, 0, 0]]);
}

#[test]
fn message_index_is_delivered_once_across_datagrams() {
    let mut receiver = stream(1500);
    let mut events = Vec::new();
    let first = [0x84, 0, 0, 0, 0x40, 0, 16, 5, 0, 0, 0xfe, 1];
    let second = [0x84, 1, 0, 0, 0x40, 0, 16, 5, 0, 0, 0xfe, 2];
    assert_eq!(receiver.decode(&first, &mut events, 1, 0), Ok(()));
    assert_eq!(receiver.decode(&second, &mut events, 1, 0), Ok(()));
    assert_eq!(events, vec![RakNetEvent::IncomingBatch(1, vec![1])]);
}

#[test]
fn unreliable_frames_pass_the_message_window() {
    let mut receiver = stream(1500);
    let mut events = Vec::new();
    let first = [0x84, 0, 0, 0, 0x00, 0, 16, 0xfe, 1];
    let second = [0x84, 1, 0, 0, 0x00, 0, 16, 0xfe, 2];
    assert_eq!(receiver.decode(&first, &mut events, 1, 0), Ok(()));
    assert_eq!(receiver.decode(&second, &mut events, 1, 0), Ok(()));
    assert_eq!(
        events,
        vec![RakNetEvent::IncomingBatch(1, vec![1]), RakNetEvent::IncomingBatch(1, vec![2])]
    );
}

#[test]
fn datagram_errors() {
    let cases: Vec<(Vec<u8>, Error)> = vec![
        (vec![], Error::UnexpectedEof),
        (vec![0x04, 0, 0, 0], Error::MissingDatagramFlag),
        (vec![0x7f], Error::MissingDatagramFlag),
        (vec![0x84, 0, 0], Error::UnexpectedEof),
        (vec![0x84, 0, 0, 0, 0xa0, 0, 8, 1], Error::InvalidReliability),
        (vec![0x84, 0, 0, 0, 0x00, 0, 7, 1], Error::EmptyFrame),
        (vec![0x84, 0, 0, 0, 0x00, 0], Error::UnexpectedEof),
        (vec![0x84, 0, 0, 0, 0x00, 0, 16, 0xfe], Error::UnexpectedEof),
        (vec![0x84, 0, 0, 0, 0x40, 0, 8, 0, 0], Error::UnexpectedEof),
        (vec![0x84, 0, 0, 0, 0x00, 0, 8, 0x42], Error::UnknownMessageId),
        (vec![0x84, 0, 0, 0, 0x00, 0, 8, 0x00], Error::UnexpectedEof),
        (vec![0x84, 0, 0, 0, 0x10, 0, 8, 0, 0, 0, 251, 0, 1, 0, 0, 0, 0, 9], Error::TooManySplits),
        (vec![0xc0, 0], Error::UnexpectedEof),
        (vec![0xc0, 0, 1, 9, 0, 0, 0], Error::InvalidRecordType),
        (vec![0xa0, 0, 1, 0, 0, 0, 0], Error::UnexpectedEof),
    ];
    for (bytes, error) in cases {
        let mut s = stream(1500);
        let mut events = Vec::new();
        assert_eq!(s.decode(&bytes, &mut events, 1, 0), Err(error));
        assert!(events.is_empty());
    }
}

#[test]
fn split_count_must_match_the_stored_one() {
    let mut s = stream(1500);
    let mut events = Vec::new();
    let first = [0x84, 0, 0, 0, 0x10, 0, 8, 0, 0, 0, 3, 0, 9, 0, 0, 0, 0, 1];
    let second = [0x84, 1, 0, 0, 0x10, 0, 8, 0, 0, 0, 4, 0, 9, 0, 0, 0, 1, 2];
    assert_eq!(s.decode(&first, &mut events, 1, 0), Ok(()));
    assert_eq!(s.split_window.len(), 1);
    assert_eq!(s.decode(&second, &mut events, 1, 0), Err(Error::SplitCountMismatch));
    assert!(s.split_window.is_empty());
}

#[test]
fn split_count_at_the_limit_is_taken() {
    let mut s = stream(1500);
    let mut events = Vec::new();
    let frame = [0x84, 0, 0, 0, 0x10, 0, 8, 0, 0, 0, 250, 0, 1, 0, 0, 0, 0, 9];
    assert_eq!(s.decode(&frame, &mut events, 1, 0), Ok(()));
    assert_eq!(s.split_window.len(), 1);
}

#[test]
fn too_many_frames_in_a_datagram() {
    let mut bytes = vec![0x84, 0, 0, 0];
    for _ in 0..100 {
        bytes.extend_from_slice(&[0x00, 0, 8, 0x04]);
    }
    let mut s = stream(1500);
    let mut events = Vec::new();
    assert_eq!(s.decode(&bytes, &mut events, 1, 0), Ok(()));
    assert_eq!(s.take_outgoing().len(), 100);

    bytes[1] = 1;
    bytes.extend_from_slice(&[0x00, 0, 16, 0xfe, 7]);
    assert_eq!(s.decode(&bytes, &mut events, 1, 0), Err(Error::TooManyFrames));
    assert_eq!(s.take_outgoing().len(), 100);
    assert!(events.is_empty());
}

#[test]
fn frames_that_are_dropped_count_towards_the_limit() {
    let mut s = stream(1500);
    let mut events = Vec::new();
    let first = [0x84, 0, 0, 0, 0x40, 0, 8, 5, 0, 0, 0x04];
    assert_eq!(s.decode(&first, &mut events, 1, 0), Ok(()));
    assert_eq!(s.take_outgoing().len(), 1);

    let mut bytes = vec![0x84, 1, 0, 0];
    for _ in 0..100 {
        bytes.extend_from_slice(&[0x40, 0, 8, 5, 0, 0, 0x04]);
    }
    assert_eq!(s.decode(&bytes, &mut events, 1, 0), Ok(()));
    bytes[1] = 2;
    bytes.extend_from_slice(&[0x40, 0, 8, 5, 0, 0, 0x04]);
    assert_eq!(bytes.len(), 711);
    assert_eq!(s.decode(&bytes, &mut events, 1, 0), Err(Error::TooManyFrames));
    assert!(s.take_outgoing().is_empty());
    assert!(events.is_empty());
}

#[test]
fn fragments_count_towards_the_limit() {
    let mut s = stream(1500);
    let mut events = Vec::new();
    let mut bytes = vec![0x84, 0, 0, 0];
    for i in 0..50u8 {
        bytes.extend_from_slice(&[0x10, 0, 8, 0, 0, 0, 2, 0, i, 0, 0, 0, 0, 0xfe]);
        bytes.extend_from_slice(&[0x10, 0, 8, 0, 0, 0, 2, 0, i, 0, 0, 0, 1, i]);
    }
    assert_eq!(s.decode(&bytes, &mut events, 1, 0), Ok(()));
    assert_eq!(events.len(), 50);
    assert_eq!(events[49], RakNetEvent::IncomingBatch(1, vec![49]));

    events.clear();
    bytes[1] = 1;
    bytes.extend_from_slice(&[0x00, 0, 16, 0xfe, 200]);
    assert_eq!(s.decode(&bytes, &mut events, 1, 0), Err(Error::TooManyFrames));
    assert_eq!(events.len(), 50);
    assert!(events.iter().all(|event| *event != RakNetEvent::IncomingBatch(1, vec![200])));
}

#[test]
fn duplicate_datagram_is_dropped() {
    let mut s = stream(1500);
    let mut events = Vec::new();
    let datagram = [0x84, 4, 0, 0, 0x00, 0, 16, 0xfe, 1];
    assert_eq!(s.decode(&datagram, &mut events, 1, 0), Ok(()));
    assert_eq!(s.decode(&datagram, &mut events, 1, 0), Ok(()));
    assert_eq!(events.len(), 1);
    let stray = [0x84, 0, 8, 0, 0x00, 0, 16, 0xfe, 1];
    assert_eq!(s.decode(&stray, &mut events, 1, 0), Ok(()));
    assert_eq!(events.len(), 1);
}

#[test]
fn connected_ping_is_answered_with_a_pong() {
    let mut s = stream(1500);
    let mut events = Vec::new();
    let mut datagram = vec![0x84, 0, 0, 0, 0x00, 0, 72, 0x00];
    datagram.extend_from_slice(&1234i64.to_be_bytes());
    assert_eq!(s.decode(&datagram, &mut events, 1, 50), Ok(()));
    assert!(events.is_empty());
    let mut pong = vec![0x84, 0, 0, 0, 0x00, 0, 136, 0x03];
    pong.extend_from_slice(&1234i64.to_be_bytes());
    pong.extend_from_slice(&1234i64.to_be_bytes());
    assert_eq!(s.take_outgoing(), vec![pong]);
}

#[test]
fn connected_pong_gives_the_ping_time() {
    let mut s = stream(1500);
    let mut events = Vec::new();
    let mut datagram = vec![0x84, 0, 0, 0, 0x00, 0, 136, 0x03];
    datagram.extend_from_slice(&1000i64.to_be_bytes());
    datagram.extend_from_slice(&1042i64.to_be_bytes());
    assert_eq!(s.decode(&datagram, &mut events, 9, 50), Ok(()));
    assert_eq!(events, vec![RakNetEvent::Ping(9, 42)]);
    assert_eq!(s.status.ping, 42);

    let mut datagram = vec![0x84, 1, 0, 0, 0x00, 0, 136, 0x03];
    datagram.extend_from_slice(&2i64.to_be_bytes());
    datagram.extend_from_slice(&1i64.to_be_bytes());
    events.clear();
    assert_eq!(s.decode(&datagram, &mut events, 9, 50), Ok(()));
    assert_eq!(events, vec![RakNetEvent::Ping(9, u64::MAX)]);
}

#[test]
fn connection_request_is_accepted() {
    let mut server = stream(1500);
    let mut client = RakStream::new(UDPAddress::V4 { ip: 0x0a00_0002, port: 19132 }, 1500, 0);
    let mut events = Vec::new();
    client.encode(
        &Message::ConnectionRequest { client_guid: 5, request_timestamp: 77, secure: false },
        Reliability::Reliable,
        0,
    );
    let request = client.take_outgoing();
    assert_eq!(server.decode(&request[0], &mut events, 1, 10), Ok(()));
    assert!(events.is_empty());
    let accepted = server.take_outgoing();
    assert_eq!(accepted.len(), 1);
    let mut reader = Reader::new(&accepted[0][4..]);
    let frame = read_frame(&mut reader).unwrap();
    let mut content = Reader::new(frame.content);
    assert_eq!(
        Message::deserialize(&mut content),
        Ok(Message::ConnectionRequestAccepted {
            client_address: peer(),
            system_addresses: SystemAddresses,
            request_timestamp: 77,
            accept_timestamp: 77,
        })
    );

    assert_eq!(client.decode(&accepted[0], &mut events, 2, 20), Ok(()));
    assert_eq!(events, vec![RakNetEvent::ConnectionEstablished(client.addr, 2)]);
    let incoming = client.take_outgoing();
    events.clear();
    assert_eq!(server.decode(&incoming[0], &mut events, 1, 30), Ok(()));
    assert_eq!(events, vec![RakNetEvent::ConnectionEstablished(peer(), 1)]);
    assert!(server.take_outgoing().is_empty());
}

#[test]
fn other_messages_from_the_peer() {
    let mut s = stream(1500);
    let mut events = Vec::new();
    assert_eq!(s.decode(&[0x84, 0, 0, 0, 0x00, 0, 8, 0x15], &mut events, 4, 0), Ok(()));
    assert_eq!(events, vec![RakNetEvent::Disconnect(4, DisconnectReason::ClientDisconnect)]);

    events.clear();
    assert_eq!(s.decode(&[0x84, 1, 0, 0, 0x00, 0, 8, 0x04], &mut events, 4, 5_999), Ok(()));
    assert!(events.is_empty());
    let mut ping = vec![0x84, 0, 0, 0, 0x00, 0, 72, 0x00];
    ping.extend_from_slice(&5i64.to_be_bytes());
    assert_eq!(s.take_outgoing(), vec![ping]);

    let mut datagram = vec![0x84, 2, 0, 0, 0x00, 0, 208, 0x19, 10];
    datagram.extend_from_slice(&[
        0x00, 0xff, 0xff, 0x00, 0xfe, 0xfe, 0xfe, 0xfe, 0xfd, 0xfd, 0xfd, 0xfd, 0x12, 0x34, 0x56,
        0x78,
    ]);
    datagram.extend_from_slice(&1i64.to_be_bytes());
    assert_eq!(s.decode(&datagram, &mut events, 4, 0), Ok(()));
    assert_eq!(events, vec![RakNetEvent::IncompatibleProtocol(4, 10)]);

    events.clear();
    let mut unconnected = vec![0x84, 3, 0, 0, 0x00, 1, 8, 0x01];
    unconnected.extend_from_slice(&1i64.to_be_bytes());
    unconnected.extend_from_slice(&magic_bytes());
    unconnected.extend_from_slice(&1i64.to_be_bytes());
    assert_eq!(s.decode(&unconnected, &mut events, 4, 0), Ok(()));
    assert!(events.is_empty());
    assert!(s.take_outgoing().is_empty());
}

fn magic_bytes() -> Vec<u8> {
    let mut buf = bytes::BytesMut::new();
    Magic.serialize(&mut buf);
    buf.to_vec()
}

#[test]
fn acknowledgement_of_a_range() {
    let mut s = stream(1500);
    for _ in 0..5 {
        s.encode(&Message::DetectLostConnections {}, Reliability::Unreliable, 1_000);
    }
    assert_eq!(s.recovery_window.unacknowledged.len(), 5);
    let mut events = Vec::new();
    let ack = [0xc0, 0, 2, 0, 1, 0, 0, 3, 0, 0, 1, 9, 0, 0];
    assert_eq!(s.decode(&ack, &mut events, 1, 1_030), Ok(()));
    assert_eq!(events, vec![RakNetEvent::Latency(1, 30)]);
    let mut left: Vec<u32> = s.recovery_window.unacknowledged.keys().copied().collect();
    left.sort();
    assert_eq!(left, vec![0, 4]);
    assert_eq!(s.recovery_window.delays.len(), 3);
    assert_eq!(s.status.last_activity, 1_030);
}

#[test]
fn counters_start_again_after_their_largest_value() {
    let mut s = stream(1500);
    s.sequence_number = 0xff_ffff;
    s.message_index = 0xff_ffff;
    s.order_index = 0xff_ffff;
    s.sequence_index = 0xff_ffff;
    s.split_id = 0xffff;
    s.encode(&game(&vec![0; 2000]), Reliability::ReliableSequenced, 0);
    let out = s.take_outgoing();
    assert_eq!(out.len(), 2);
    assert_eq!(&out[0][..4], &[0x84, 0xff, 0xff, 0xff]);
    assert_eq!(&out[1][..4], &[0x84, 0, 0, 0]);
    assert_eq!(&out[0][7..17], &[0xff, 0xff, 0xff, 0xff, 0xff, 0xff, 0xff, 0xff, 0xff, 0]);
    assert_eq!(&out[1][7..17], &[0, 0, 0, 0, 0, 0, 0xff, 0xff, 0xff, 0]);
    assert_eq!(&out[0][17..27], &[0, 0, 0, 2, 0xff, 0xff, 0, 0, 0, 0]);
    assert_eq!((s.sequence_number, s.message_index, s.sequence_index), (1, 1, 1));
    assert_eq!((s.order_index, s.split_id), (0, 0));
}

#[test]
fn disconnect_sends_a_notification() {
    let mut s = stream(1500);
    s.encode(&game(&[1]), Reliability::ReliableOrdered, 0);
    s.disconnect(5);
    assert_eq!(
        s.take_outgoing(),
        vec![vec![
            0x84, 0, 0, 0, 0x60, 0, 16, 0, 0, 0, 0, 0, 0, 0, 0xfe, 1, 0x60, 0, 8, 1, 0, 0, 1, 0, 0, 0,
            0x15
        ]]
    );
}

#[test]
fn timeout_ends_the_connection() {
    let status = NetworkStatus { ping: 0, latency: 0, last_activity: 1_000 };
    let mut events = Vec::new();
    check_timeout(&status, 3, 100, &mut events, 1_100);
    check_timeout(&status, 3, 100, &mut events, 900);
    assert!(events.is_empty());
    check_timeout(&status, 3, 100, &mut events, 1_101);
    assert_eq!(events, vec![RakNetEvent::Disconnect(3, DisconnectReason::ClientTimeout)]);
}

#[test]
fn host_events_reach_their_connection() {
    let mut s = stream(1500);
    assert!(!connection_tick(&RakNetEvent::OutgoingBatch(2, vec![1]), &mut s, 1, 0));
    s.try_flush(0);
    assert!(s.take_outgoing().is_empty());
    assert!(!connection_tick(&RakNetEvent::OutgoingBatch(1, vec![1, 2]), &mut s, 1, 0));
    assert!(s.outbox.is_empty());
    flush_batch(&mut s, 0);
    assert_eq!(
        s.take_outgoing(),
        vec![vec![0x84, 0, 0, 0, 0x60, 0, 24, 0, 0, 0, 0, 0, 0, 0, 0xfe, 1, 2]]
    );
    assert!(!connection_tick(&RakNetEvent::Ping(1, 5), &mut s, 1, 0));
    assert!(!connection_tick(&RakNetEvent::GracefulDisconnect(2), &mut s, 1, 0));
    assert!(!connection_tick(
        &RakNetEvent::Disconnect(2, DisconnectReason::ClientTimeout),
        &mut s,
        1,
        0
    ));
    assert!(connection_tick(
        &RakNetEvent::Disconnect(1, DisconnectReason::ClientTimeout),
        &mut s,
        1,
        0
    ));
    assert!(s.outbox.is_empty());
    assert!(connection_tick(&RakNetEvent::GracefulDisconnect(1), &mut s, 1, 0));
    assert_eq!(
        s.take_outgoing(),
        vec![vec![0x84, 1, 0, 0, 0x60, 0, 8, 1, 0, 0, 1, 0, 0, 0, 0x15]]
    );
}

#[test]
fn client_reads_datagrams_of_its_server() {
    let mut s = stream(1500);
    let mut events = Vec::new();
    assert_eq!(
        client_read_udp(&mut s, &[0x84, 0, 0, 0, 0x00, 0, 16, 0xfe, 9], &mut events, 6, 1),
        Ok(())
    );
    assert_eq!(events, vec![RakNetEvent::IncomingBatch(6, vec![9])]);
    assert_eq!(client_read_udp(&mut s, &[0x01], &mut events, 6, 1), Err(Error::MissingDatagramFlag));
}
