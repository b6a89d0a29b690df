use bytes::BytesMut;
use raknet::protocol::binary::{Error, Magic, Reader, SystemAddresses, UDPAddress};
use raknet::protocol::message::Message;
use raknet::protocol::reliability::Reliability;

const MAGIC: [u8; 16] = [
    0x00, 0xff, 0xff, 0x00, 0xfe, 0xfe, 0xfe, 0xfe, 0xfd, 0xfd, 0xfd, 0xfd, 0x12, 0x34, 0x56, 0x78,
];

fn wire(message: &Message) -> Vec<u8> {
    let mut buf = BytesMut::new();
    message.serialize(&mut buf);
    buf.to_vec()
}

fn parse(bytes: &[u8]) -> Result<Message, Error> {
    let mut reader = Reader::new(bytes);
    Message::deserialize(&mut reader)
}

fn v4() -> UDPAddress {
    UDPAddress::V4 { ip: 0x7f00_0001, port: 19132 }
}

fn v6() -> UDPAddress {
    UDPAddress::V6 { ip: 0x2001_0db8_0000_0000_0000_0000_0000_0001, port: 443 }
}

fn every_message() -> Vec<Message> {
    vec![
        Message::UnconnectedPing { send_timestamp: 42, magic: Magic, client_guid: 0x1111 },
        Message::UnconnectedPingOpenConnections {
            send_timestamp: -1,
            magic: Magic,
            client_guid: i64::MIN,
        },
        Message::UnconnectedPong {
            send_timestamp: 7,
            server_guid: i64::MAX,
            magic: Magic,
            data: b"MCPE;x;".to_vec(),
        },
        Message::OpenConnectionRequest1 { magic: Magic, protocol: 11, emptybuf: vec![0; 64] },
        Message::OpenConnectionReply1 {
            magic: Magic,
            server_guid: -5,
            secure: false,
            server_mtu: 1492,
        },
        Message::OpenConnectionRequest2 {
            magic: Magic,
            server_address: v4(),
            client_mtu: 1400,
            client_guid: 9,
        },
        Message::OpenConnectionReply2 {
            magic: Magic,
            server_guid: 3,
            client_address: v6(),
            mtu_size: 576,
            secure: true,
        },
        Message::IncompatibleProtocolVersion { server_protocol: 11, magic: Magic, server_guid: 1 },
        Message::ConnectedPing { client_timestamp: 123_456_789 },
        Message::ConnectedPong { client_timestamp: 1, server_timestamp: 2 },
        Message::ConnectionRequest { client_guid: 77, request_timestamp: 88, secure: true },
        Message::ConnectionRequestAccepted {
            client_address: v4(),
            system_addresses: SystemAddresses,
            request_timestamp: 10,
            accept_timestamp: 20,
        },
        Message::NewIncomingConnection {
            server_address: v6(),
            system_addresses: SystemAddresses,
            request_timestamp: -10,
            accept_timestamp: -20,
        },
        Message::DetectLostConnections {},
        Message::DisconnectNotification {},
        Message::GamePacket { data: vec![1, 2, 3, 4, 5] },
    ]
}

#[test]
fn magic_serializes_to_the_constant() {
    let mut buf = BytesMut::new();
    Magic.serialize(&mut buf);
    assert_eq!(&buf[..], &MAGIC[..]);
}

#[test]
fn magic_parses_from_the_constant_only() {
    let mut reader = Reader::new(&MAGIC);
    assert_eq!(Magic::deserialize(&mut reader), Ok(Magic));
    assert_eq!(reader.pos, 16);
    for flipped in 0..16 {
        let mut other = MAGIC;
        other[flipped] ^= 1;
        let mut reader = Reader::new(&other);
        assert_eq!(Magic::deserialize(&mut reader), Err(Error::MagicMismatch));
    }
    let mut reader = Reader::new(&MAGIC[..15]);
    assert_eq!(Magic::deserialize(&mut reader), Err(Error::UnexpectedEof));
}

#[test]
fn every_message_comes_back() {
    for message in every_message() {
        let bytes = wire(&message);
        assert_eq!(bytes[0], message.id());
        assert_eq!(parse(&bytes), Ok(message));
    }
}

#[test]
fn message_ids() {
    let ids: Vec<u8> = every_message().iter().map(|m| m.id()).collect();
    assert_eq!(
        ids,
        vec![
            0x01, 0x02, 0x1c, 0x05, 0x06, 0x07, 0x08, 0x19, 0x00, 0x03, 0x09, 0x10, 0x13, 0x04,
            0x15, 0xfe
        ]
    );
}

#[test]
fn unconnected_ping_bytes() {
    let message = Message::UnconnectedPing { send_timestamp: 42, magic: Magic, client_guid: 0x1111 };
    let mut expected = vec![0x01];
    expected.extend_from_slice(&42u64.to_be_bytes());
    expected.extend_from_slice(&MAGIC);
    expected.extend_from_slice(&0x1111u64.to_be_bytes());
    assert_eq!(wire(&message), expected);
    assert_eq!(parse(&expected), Ok(message));
}

#[test]
fn unconnected_pong_bytes() {
    let message = Message::UnconnectedPong {
        send_timestamp: 42,
        server_guid: -2,
        magic: Magic,
        data: b"MCPE;".to_vec(),
    };
    let mut expected = vec![0x1c];
    expected.extend_from_slice(&42i64.to_be_bytes());
    expected.extend_from_slice(&(-2i64).to_be_bytes());
    expected.extend_from_slice(&MAGIC);
    expected.extend_from_slice(&[0, 5]);
    expected.extend_from_slice(b"MCPE;");
    assert_eq!(wire(&message), expected);
}

#[test]
fn pong_with_a_short_status_fails() {
    let message = Message::UnconnectedPong {
        send_timestamp: 42,
        server_guid: -2,
        magic: Magic,
        data: b"MCPE;".to_vec(),
    };
    let bytes = wire(&message);
    assert_eq!(parse(&bytes[..bytes.len() - 1]), Err(Error::UnexpectedEof));
}

#[test]
fn open_connection_reply1_bytes() {
    let message = Message::OpenConnectionReply1 {
        magic: Magic,
        server_guid: 0x0102_0304_0506_0708,
        secure: false,
        server_mtu: 1492,
    };
    let mut expected = vec![0x06];
    expected.extend_from_slice(&MAGIC);
    expected.extend_from_slice(&[1, 2, 3, 4, 5, 6, 7, 8, 0, 0x05, 0xd4]);
    assert_eq!(wire(&message), expected);
}

#[test]
fn any_byte_but_zero_is_true() {
    let mut bytes = vec![0x09];
    bytes.extend_from_slice(&1i64.to_be_bytes());
    bytes.extend_from_slice(&2i64.to_be_bytes());
    bytes.push(0x80);
    assert_eq!(
        parse(&bytes),
        Ok(Message::ConnectionRequest { client_guid: 1, request_timestamp: 2, secure: true })
    );
    let last = bytes.len() - 1;
    bytes[last] = 0;
    assert_eq!(
        parse(&bytes),
        Ok(Message::ConnectionRequest { client_guid: 1, request_timestamp: 2, secure: false })
    );
}

#[test]
fn address_v4_bytes() {
    let mut buf = BytesMut::new();
    v4().serialize(&mut buf);
    assert_eq!(&buf[..], &[4, 127, 0, 0, 1, 0x4a, 0xbc]);
    let mut reader = Reader::new(&buf);
    assert_eq!(UDPAddress::deserialize(&mut reader), Ok(v4()));
    assert_eq!(reader.pos, 7);
    assert_eq!(v4().port(), 19132);
}

#[test]
fn address_v6_bytes() {
    let mut buf = BytesMut::new();
    v6().serialize(&mut buf);
    let mut expected = vec![6, 23, 0, 0x01, 0xbb, 0, 0, 0, 0];
    expected.extend_from_slice(&[0x20, 0x01, 0x0d, 0xb8, 0, 0, 0, 0, 0, 0, 0, 0, 0, 0, 0, 1]);
    expected.extend_from_slice(&[0, 0, 0, 0]);
    assert_eq!(&buf[..], &expected[..]);
    let mut reader = Reader::new(&buf);
    assert_eq!(UDPAddress::deserialize(&mut reader), Ok(v6()));
    assert_eq!(reader.pos, 29);
    assert_eq!(v6().port(), 443);
}

#[test]
fn address_of_an_unknown_family_fails() {
    let mut reader = Reader::new(&[5, 1, 2, 3, 4, 0, 80]);
    assert_eq!(UDPAddress::deserialize(&mut reader), Err(Error::InvalidAddressFamily));
    let mut reader = Reader::new(&[4, 1, 2, 3, 4, 0]);
    assert_eq!(UDPAddress::deserialize(&mut reader), Err(Error::UnexpectedEof));
    let mut reader = Reader::new(&[]);
    assert_eq!(UDPAddress::deserialize(&mut reader), Err(Error::UnexpectedEof));
}

#[test]
fn system_addresses_are_twenty_placeholders() {
    let mut buf = BytesMut::new();
    SystemAddresses.serialize(&mut buf);
    assert_eq!(buf.len(), 140);
    for chunk in buf.chunks(7) {
        assert_eq!(chunk, &[4, 255, 255, 255, 255, 0x4a, 0xbc]);
    }
}

#[test]
fn system_addresses_end_where_sixteen_bytes_are_left() {
    let mut bytes = Vec::new();
    for _ in 0..3 {
        bytes.extend_from_slice(&[4, 1, 1, 1, 1, 0, 1]);
    }
    bytes.extend_from_slice(&[9; 16]);
    let mut reader = Reader::new(&bytes);
    assert_eq!(SystemAddresses::deserialize(&mut reader), Ok(SystemAddresses));
    assert_eq!(reader.pos, 21);
}

#[test]
fn accepted_request_with_ten_addresses_parses() {
    let mut bytes = vec![0x10];
    bytes.extend_from_slice(&[4, 127, 0, 0, 1, 0x4a, 0xbc]);
    for _ in 0..10 {
        bytes.extend_from_slice(&[4, 255, 255, 255, 255, 0x4a, 0xbc]);
    }
    bytes.extend_from_slice(&5i64.to_be_bytes());
    bytes.extend_from_slice(&6i64.to_be_bytes());
    assert_eq!(
        parse(&bytes),
        Ok(Message::ConnectionRequestAccepted {
            client_address: v4(),
            system_addresses: SystemAddresses,
            request_timestamp: 5,
            accept_timestamp: 6,
        })
    );
}

#[test]
fn unknown_message_id_fails() {
    assert_eq!(parse(&[0x42, 1, 2, 3]), Err(Error::UnknownMessageId));
    assert_eq!(parse(&[]), Err(Error::UnexpectedEof));
}

#[test]
fn message_with_a_wrong_magic_fails() {
    let mut bytes = wire(&Message::UnconnectedPing {
        send_timestamp: 42,
        magic: Magic,
        client_guid: 0x1111,
    });
    bytes[12] ^= 0xff;
    assert_eq!(parse(&bytes), Err(Error::MagicMismatch));
}

#[test]
fn truncated_messages_fail() {
    for message in every_message() {
        let bytes = wire(&message);
        let carries_bytes = matches!(
            message,
            Message::OpenConnectionRequest1 { .. } | Message::GamePacket { .. }
        );
        if bytes.len() > 1 && !carries_bytes {
            assert_eq!(parse(&bytes[..bytes.len() - 1]), Err(Error::UnexpectedEof));
        }
    }
}

#[test]
fn writable_messages() {
    assert!(Message::GamePacket { data: vec![0; 100_000] }.writable());
    assert!(Message::UnconnectedPong {
        send_timestamp: 0,
        server_guid: 0,
        magic: Magic,
        data: vec![0; 0xffff]
    }
    .writable());
    assert!(!Message::UnconnectedPong {
        send_timestamp: 0,
        server_guid: 0,
        magic: Magic,
        data: vec![0; 0x1_0000]
    }
    .writable());
}

#[test]
fn reader_reads_every_width() {
    let bytes = [
        0x12, 0x01, 0x02, 0x03, 0x02, 0x01, 0x0a, 0x0b, 0x0c, 0x0d, 0xff, 0xff, 0xff, 0xff, 0xff,
        0xff, 0xff, 0xfe, 0x00, 0x01,
    ];
    let mut reader = Reader::new(&bytes);
    assert_eq!(reader.remaining(), 20);
    assert_eq!(reader.read_u8(), Ok(0x12));
    assert_eq!(reader.read_u16(), Ok(0x0102));
    assert_eq!(reader.read_u24(), Ok(0x010203));
    assert_eq!(reader.read_u32(), Ok(0x0a0b0c0d));
    assert_eq!(reader.read_i64(), Ok(-2));
    assert_eq!(reader.read_bool(), Ok(false));
    assert_eq!(reader.read_bool(), Ok(true));
    assert_eq!(reader.remaining(), 0);
    assert_eq!(reader.read_u8(), Err(Error::UnexpectedEof));
    assert_eq!(reader.read_u16(), Err(Error::UnexpectedEof));
    assert_eq!(reader.read_u24(), Err(Error::UnexpectedEof));
    assert_eq!(reader.read_u32(), Err(Error::UnexpectedEof));
    assert_eq!(reader.read_i64(), Err(Error::UnexpectedEof));
    assert_eq!(reader.read_u128(), Err(Error::UnexpectedEof));
    assert_eq!(reader.skip(1), Err(Error::UnexpectedEof));
    assert_eq!(reader.skip(0), Ok(()));
}

#[test]
fn reader_reads_sixteen_bytes_and_the_rest() {
    let mut bytes = vec![0u8; 15];
    bytes.push(7);
    bytes.extend_from_slice(&[1, 2, 3]);
    let mut reader = Reader::new(&bytes);
    assert_eq!(reader.read_u128(), Ok(7));
    assert_eq!(reader.take(2), Ok(&[1u8, 2][..]));
    assert_eq!(reader.rest(), &[3u8][..]);
    assert_eq!(reader.remaining(), 0);
}

#[test]
fn reliability_classes() {
    let classes = [
        Reliability::Unreliable,
        Reliability::UnreliableSequenced,
        Reliability::Reliable,
        Reliability::ReliableOrdered,
        Reliability::ReliableSequenced,
    ];
    let reliable = [false, false, true, true, true];
    let sequenced = [false, true, false, false, true];
    let sequenced_or_ordered = [false, true, false, true, true];
    for (i, class) in classes.iter().enumerate() {
        assert_eq!(class.to_u8(), i as u8);
        assert_eq!(Reliability::try_from(i as u8), Ok(*class));
        assert_eq!(class.reliable(), reliable[i]);
        assert_eq!(class.sequenced(), sequenced[i]);
        assert_eq!(class.sequenced_or_ordered(), sequenced_or_ordered[i]);
    }
    assert_eq!(Reliability::try_from(5), Err(Error::InvalidReliability));
    assert_eq!(Reliability::try_from(7), Err(Error::InvalidReliability));
}
