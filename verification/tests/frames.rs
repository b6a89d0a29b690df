use bytes::BytesMut;
use raknet::generic::events::{emit, RakNetEvent};
use raknet::generic::window::append;
use raknet::protocol::binary::{Error, Reader};
use raknet::protocol::frame::{header_len, read_frame, write_header};
use raknet::protocol::reliability::Reliability;

const CLASSES: [Reliability; 5] = [
    Reliability::Unreliable,
    Reliability::UnreliableSequenced,
    Reliability::Reliable,
    Reliability::ReliableOrdered,
    Reliability::ReliableSequenced,
];

#[test]
fn header_lengths() {
    let plain = [3usize, 10, 6, 10, 13];
    for (class, len) in CLASSES.iter().zip(plain) {
        assert_eq!(header_len(*class, false), len);
        assert_eq!(header_len(*class, true), len + 10);
    }
}

#[test]
fn header_bytes_of_a_fragment() {
    let mut buf = BytesMut::new();
    write_header(
        &mut buf,
        Reliability::ReliableSequenced,
        1448,
        0x010203,
        0x040506,
        0x070809,
        Some((4, 0x0a0b, 2)),
    );
    assert_eq!(
        &buf[..],
        &[
            0x90, 0x2d, 0x40, 0x03, 0x02, 0x01, 0x06, 0x05, 0x04, 0x09, 0x08, 0x07, 0, 0, 0, 0, 4,
            0x0a, 0x0b, 0, 0, 0, 2
        ]
    );
    assert_eq!(buf.len(), header_len(Reliability::ReliableSequenced, true));
}

#[test]
fn frames_come_back() {
    for class in CLASSES {
        for split in [None, Some((3u32, 9u16, 1u32))] {
            let content = [7u8, 8, 9];
            let mut buf = BytesMut::new();
            buf.extend_from_slice(&[0xaa]);
            write_header(&mut buf, class, content.len(), 5, 6, 7, split);
            buf.extend_from_slice(&content);
            buf.extend_from_slice(&[0xbb]);
            let mut reader = Reader::new(&buf);
            assert_eq!(reader.read_u8(), Ok(0xaa));
            let frame = read_frame(&mut reader).unwrap();
            assert_eq!(frame.reliability, class);
            assert_eq!(frame.message_index, if class.reliable() { 5 } else { 0 });
            assert_eq!(frame.split, split);
            assert_eq!(frame.content, &content[..]);
            assert_eq!(reader.remaining(), 1);
        }
    }
}

#[test]
fn longest_content_that_a_header_can_state() {
    let content = vec![1u8; 8191];
    let mut buf = BytesMut::new();
    write_header(&mut buf, Reliability::Unreliable, content.len(), 0, 0, 0, None);
    assert_eq!(&buf[..], &[0x00, 0xff, 0xf8]);
    buf.extend_from_slice(&content);
    let mut reader = Reader::new(&buf);
    assert_eq!(read_frame(&mut reader).unwrap().content, &content[..]);
}

#[test]
fn frames_that_cannot_be_read() {
    let cases: Vec<(Vec<u8>, Error)> = vec![
        (vec![], Error::UnexpectedEof),
        (vec![0xa0], Error::InvalidReliability),
        (vec![0xe0, 0, 8, 1], Error::InvalidReliability),
        (vec![0x00], Error::UnexpectedEof),
        (vec![0x00, 0, 0], Error::EmptyFrame),
        (vec![0x10, 0, 7, 1, 2, 3], Error::EmptyFrame),
        (vec![0x00, 0, 8], Error::UnexpectedEof),
        (vec![0x60, 0, 8, 0, 0, 0, 0, 0, 0], Error::UnexpectedEof),
        (vec![0x30, 0, 8, 0, 0, 0, 0, 0, 0, 0, 0, 0, 0, 0, 0, 0, 0], Error::UnexpectedEof),
        (vec![0x00, 0xff, 0xff, 1], Error::UnexpectedEof),
    ];
    for (bytes, error) in cases {
        let mut reader = Reader::new(&bytes);
        assert_eq!(read_frame(&mut reader).err(), Some(error));
    }
}

#[test]
fn bits_below_a_byte_are_dropped_from_the_length() {
    let bytes = [0x00, 0, 15, 0xfe, 1];
    let mut reader = Reader::new(&bytes);
    let frame = read_frame(&mut reader).unwrap();
    assert_eq!(frame.content, &[0xfe][..]);
    assert_eq!(reader.remaining(), 1);
}

#[test]
fn helpers_append() {
    let mut bytes = vec![1u8];
    append(&mut bytes, &[2, 3]);
    append(&mut bytes, &[]);
    assert_eq!(bytes, vec![1, 2, 3]);
    let mut events = vec![RakNetEvent::Ping(1, 2)];
    emit(&mut events, RakNetEvent::GracefulDisconnect(3));
    assert_eq!(events, vec![RakNetEvent::Ping(1, 2), RakNetEvent::GracefulDisconnect(3)]);
}
