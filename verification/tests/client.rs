use raknet::net::client::{ClientAction, ClientError, ClientHandshake, ClientStage};
use raknet::net::listener::Listener;
use raknet::protocol::binary::{Error, UDPAddress};

const MAGIC: [u8; 16] = [
    0x00, 0xff, 0xff, 0x00, 0xfe, 0xfe, 0xfe, 0xfe, 0xfd, 0xfd, 0xfd, 0xfd, 0x12, 0x34, 0x56, 0x78,
];

fn server() -> UDPAddress {
    UDPAddress::V4 { ip: 0x7f00_0001, port: 19132 }
}

fn client() -> UDPAddress {
    UDPAddress::V4 { ip: 0x7f00_0001, port: 40000 }
}

fn sent(action: ClientAction) -> Vec<u8> {
    match action {
        ClientAction::Send(bytes) => bytes,
        _ => panic!("nothing was sent"),
    }
}

fn failed(action: ClientAction) -> ClientError {
    match action {
        ClientAction::Fail(error) => error,
        _ => panic!("the handshake did not fail"),
    }
}

#[test]
fn handshake_of_client_and_server() {
    let listener = Listener::with_guid(server(), 99);
    let mut events = Vec::new();
    let (mut handshake, ping) = ClientHandshake::begin(server(), 7, 5_000);
    let mut expected = vec![0x01];
    expected.extend_from_slice(&5i64.to_be_bytes());
    expected.extend_from_slice(&MAGIC);
    expected.extend_from_slice(&7i64.to_be_bytes());
    assert_eq!(ping, expected);
    assert_eq!(handshake.stage, ClientStage::AwaitingPong);

    let pong = listener
        .handle_unconnected_message(client(), &ping, b"MCPE;", &mut events, 0)
        .unwrap()
        .datagram
        .unwrap();
    let request1 = sent(handshake.step(Some(&pong)));
    assert_eq!(request1.len(), 1 + 16 + 1 + 1454);
    assert_eq!(&request1[..18], &[&[0x05][..], &MAGIC[..], &[11][..]].concat()[..]);
    assert!(request1[18..].iter().all(|b| *b == 0));
    assert_eq!(handshake.stage, ClientStage::Discovering(1500));

    let smaller = sent(handshake.step(None));
    assert_eq!(smaller.len(), 1 + 16 + 1 + 1354);
    assert_eq!(handshake.stage, ClientStage::Discovering(1400));
    let smaller = sent(handshake.step(Some(&[0x42])));
    assert_eq!(smaller.len(), 1 + 16 + 1 + 1254);

    let reply1 = listener
        .handle_unconnected_message(client(), &smaller, b"MCPE;", &mut events, 0)
        .unwrap()
        .datagram
        .unwrap();
    let request2 = sent(handshake.step(Some(&reply1)));
    let mut expected = vec![0x07];
    expected.extend_from_slice(&MAGIC);
    expected.extend_from_slice(&[4, 127, 0, 0, 1, 0x4a, 0xbc]);
    expected.extend_from_slice(&1300u16.to_be_bytes());
    expected.extend_from_slice(&7i64.to_be_bytes());
    assert_eq!(request2, expected);
    assert_eq!(handshake.stage, ClientStage::Requesting(1300));

    let reply = listener
        .handle_unconnected_message(client(), &request2, b"MCPE;", &mut events, 0)
        .unwrap();
    assert_eq!(reply.connection.unwrap().1.mtu_size, 1300);
    match handshake.step(Some(&reply.datagram.unwrap())) {
        ClientAction::Connect(mtu) => assert_eq!(mtu, 1300),
        _ => panic!("the handshake did not end"),
    }
    assert_eq!(handshake.stage, ClientStage::Established(1300));
    assert_eq!(failed(handshake.step(None)), ClientError::Finished);
    assert_eq!(handshake.stage, ClientStage::Failed);
}

#[test]
fn handshake_fails_without_a_pong() {
    let (mut handshake, _) = ClientHandshake::begin(server(), 7, 0);
    assert_eq!(failed(handshake.step(None)), ClientError::TimedOut);
    let (mut handshake, _) = ClientHandshake::begin(server(), 7, 0);
    assert_eq!(failed(handshake.step(Some(&[0x04]))), ClientError::UnexpectedMessage);
    let (mut handshake, _) = ClientHandshake::begin(server(), 7, 0);
    assert_eq!(
        failed(handshake.step(Some(&[0x1c, 0]))),
        ClientError::Malformed(Error::UnexpectedEof)
    );
    assert_eq!(failed(handshake.step(None)), ClientError::Finished);
}

#[test]
fn handshake_gives_up_when_the_padding_is_used_up() {
    let (mut handshake, _) = ClientHandshake::begin(server(), 1, 0);
    let mut pong = vec![0x1c];
    pong.extend_from_slice(&[0; 16]);
    pong.extend_from_slice(&MAGIC);
    pong.extend_from_slice(&[0, 0]);
    let mut lengths = Vec::new();
    let mut action = handshake.step(Some(&pong));
    while let ClientAction::Send(bytes) = action {
        lengths.push(bytes.len());
        action = handshake.step(None);
    }
    let expected: Vec<usize> = (0..15).map(|k| 18 + 1454 - 100 * k).collect();
    assert_eq!(lengths, expected);
    assert_eq!(*lengths.last().unwrap(), 18 + 54);
    assert_eq!(failed(action), ClientError::Unreachable);
    assert_eq!(handshake.stage, ClientStage::Failed);
}

#[test]
fn connection_of_a_client_starts_with_a_request() {
    let (mut handshake, _) = ClientHandshake::begin(server(), 7, 0);
    handshake.stage = ClientStage::Established(1200);
    let mut stream = handshake.connect(1200, 9_000);
    assert_eq!(stream.mtu_size, 1200);
    assert_eq!(stream.addr, server());
    let mut expected = vec![0x84, 0, 0, 0, 0x40, 0, 144, 0, 0, 0, 0x09];
    expected.extend_from_slice(&7i64.to_be_bytes());
    expected.extend_from_slice(&9i64.to_be_bytes());
    expected.push(0);
    assert_eq!(stream.take_outgoing(), vec![expected]);
}

#[test]
fn handshake_fails_on_the_wrong_reply() {
    let mut handshake =
        ClientHandshake { remote: server(), guid: 1, stage: ClientStage::Discovering(1500) };
    assert_eq!(failed(handshake.step(Some(&[0x15]))), ClientError::UnexpectedMessage);
    let mut handshake =
        ClientHandshake { remote: server(), guid: 1, stage: ClientStage::Requesting(1000) };
    assert_eq!(failed(handshake.step(Some(&[0x15]))), ClientError::UnexpectedMessage);
    handshake.stage = ClientStage::Requesting(1000);
    assert_eq!(failed(handshake.step(None)), ClientError::TimedOut);
    handshake.stage = ClientStage::Requesting(1000);
    assert_eq!(
        failed(handshake.step(Some(&[0x99]))),
        ClientError::Malformed(Error::UnknownMessageId)
    );
}
