use raknet::generic::events::RakNetEvent;
use raknet::generic::window::SequenceWindow;
use raknet::net::stream::RakStream;
use raknet::protocol::binary::UDPAddress;
use raknet::protocol::message::Message;
use raknet::protocol::reliability::Reliability;

struct Lcg(u64);

impl Lcg {
    fn next(&mut self) -> u64 {
        self.0 = self.0.wrapping_mul(6364136223846793005).wrapping_add(1442695040888963407);
        self.0 >> 33
    }

    fn below(&mut self, n: u64) -> u64 {
        self.next() % n
    }
}

fn shuffled(n: u32, rng: &mut Lcg) -> Vec<u32> {
    let mut order: Vec<u32> = (0..n).collect();
    for i in (1..order.len()).rev() {
        let j = rng.below(i as u64 + 1) as usize;
        order.swap(i, j);
    }
    order
}

#[test]
fn shuffled_sequences_are_all_acknowledged() {
    let mut rng = Lcg(7);
    for round in 0..20 {
        let n = 1 + rng.below(300) as u32;
        let order = shuffled(n, &mut rng);
        let mut window = SequenceWindow::new();
        let mut delivered: Vec<u32> = Vec::new();
        for seq in order {
            assert!(window.receive(seq), "round {round}: {seq} was not let through");
            assert!(!window.receive(seq));
            delivered.push(seq);
            delivered.sort();
            assert_eq!(window.acks, delivered);
            assert!(window.nacks.iter().all(|nack| !window.acks.contains(nack)));
            assert!(window.nacks.windows(2).all(|pair| pair[0] < pair[1]));
            assert_eq!(window.end, window.start + 2048);
            for i in window.start..=window.highest {
                assert!(window.acks.contains(&i) || window.nacks.contains(&i));
            }
        }
        assert_eq!(window.start, n);
        assert!(window.nacks.is_empty());
        let (acks, nacks) = window.drain();
        assert_eq!(acks.len() as u32, n);
        assert!(nacks.is_empty());
        assert_eq!(window.start, n);
    }
}

fn deliver(
    from: &mut RakStream,
    to: &mut RakStream,
    handle: u64,
    now: u64,
    rng: &mut Lcg,
    loss: u64,
    events: &mut Vec<RakNetEvent>,
) {
    for datagram in from.take_outgoing() {
        if rng.below(100) >= loss {
            assert_eq!(to.decode(&datagram, events, handle, now), Ok(()));
        }
    }
}

#[test]
fn every_message_arrives_once_where_datagrams_are_lost() {
    let mut rng = Lcg(42);
    let mut sender = RakStream::new(UDPAddress::V4 { ip: 1, port: 1 }, 576, 0);
    let mut receiver = RakStream::new(UDPAddress::V4 { ip: 2, port: 2 }, 576, 0);
    let mut sent: Vec<Vec<u8>> = Vec::new();
    let mut received: Vec<Vec<u8>> = Vec::new();
    let mut now = 0u64;
    for tick in 0..400u64 {
        now += 100;
        if tick < 150 {
            let len = 1 + rng.below(1500) as usize;
            let data: Vec<u8> = (0..len).map(|i| (i as u64 ^ tick) as u8).collect();
            sent.push(data.clone());
            sender.encode(&Message::GamePacket { data }, Reliability::ReliableOrdered, now);
        } else {
            sender.encode(&Message::DetectLostConnections {}, Reliability::Unreliable, now);
        }
        sender.try_flush(now);
        let loss = if tick < 300 { 20 } else { 0 };
        let mut events = Vec::new();
        deliver(&mut sender, &mut receiver, 1, now, &mut rng, loss, &mut events);
        for event in events {
            match event {
                RakNetEvent::IncomingBatch(1, data) => received.push(data),
                RakNetEvent::Ping(1, _) => {}
                other => panic!("unexpected event {:?}", other),
            }
        }
        receiver.flush_receipts();
        let mut reports = Vec::new();
        deliver(&mut receiver, &mut sender, 2, now, &mut rng, 0, &mut reports);
        for report in reports {
            assert!(matches!(report, RakNetEvent::Latency(2, _)));
        }
    }
    assert_eq!(received.len(), sent.len());
    let mut expected = sent.clone();
    expected.sort();
    received.sort();
    assert_eq!(received, expected);
    assert!(receiver.split_window.is_empty());
}
