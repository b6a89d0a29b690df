use bytes::Bytes;
use raknet::generic::window::{
    holds, insert_ascending, remove_ascending, MessageWindow, RecoveryWindow, Sample,
    SequenceWindow, SplitWindow,
};

#[test]
fn fresh_sequence_window() {
    let window = SequenceWindow::new();
    assert_eq!((window.start, window.end, window.highest), (0, 2048, 0));
    assert!(window.acks.is_empty());
    assert!(window.nacks.is_empty());
}

#[test]
fn sequence_window_slides_over_a_run() {
    let mut window = SequenceWindow::new();
    assert!(window.receive(0));
    assert_eq!((window.start, window.end), (1, 2049));
    assert!(window.receive(2));
    assert_eq!((window.start, window.end, window.highest), (1, 2049, 2));
    assert_eq!(window.acks, vec![0, 2]);
    assert_eq!(window.nacks, vec![1]);
    assert!(window.receive(1));
    assert_eq!((window.start, window.end, window.highest), (3, 2051, 2));
    assert_eq!(window.acks, vec![0, 1, 2]);
    assert!(window.nacks.is_empty());
}

#[test]
fn sequence_window_rejects_duplicates_and_strays() {
    let mut window = SequenceWindow::new();
    assert!(window.receive(5));
    assert!(!window.receive(5));
    assert!(!window.receive(2048));
    assert!(window.receive(2047));
    assert!(window.receive(0));
    assert!(!window.receive(0));
    assert_eq!(window.start, 1);
    assert!(window.receive(2048));
    assert_eq!(window.nacks.len(), 2045);
}

#[test]
fn unique_sequences_in_any_order_are_all_acknowledged() {
    let order = [7u32, 3, 0, 1, 9, 2, 8, 4, 6, 5, 20, 11];
    let mut window = SequenceWindow::new();
    for (k, seq) in order.iter().enumerate() {
        assert!(window.receive(*seq));
        let mut delivered: Vec<u32> = order[..=k].to_vec();
        delivered.sort();
        assert_eq!(window.acks, delivered);
        for nack in &window.nacks {
            assert!(!window.acks.contains(nack));
        }
        for i in window.start..=window.highest {
            assert!(window.acks.contains(&i) || window.nacks.contains(&i));
        }
    }
    assert_eq!(window.start, 10);
    assert_eq!(window.nacks, vec![10, 12, 13, 14, 15, 16, 17, 18, 19]);
}

#[test]
fn shift_moves_the_window_past_the_highest_sequence() {
    let mut window = SequenceWindow::new();
    window.shift();
    assert_eq!((window.start, window.end), (0, 2048));
    assert!(window.receive(0));
    assert!(window.receive(2));
    window.shift();
    assert_eq!((window.start, window.end, window.highest), (3, 2051, 2));
    assert_eq!(window.acks, vec![0, 2]);
    assert_eq!(window.nacks, vec![1]);
}

#[test]
fn drain_hands_out_the_account_of_the_epoch() {
    let mut window = SequenceWindow::new();
    assert!(window.receive(0));
    assert!(window.receive(2));
    let (acks, nacks) = window.drain();
    assert_eq!(acks, vec![0, 2]);
    assert_eq!(nacks, vec![1]);
    assert!(window.acks.is_empty());
    assert!(window.nacks.is_empty());
    assert_eq!((window.start, window.end), (3, 2051));
    assert!(!window.receive(1));
    assert!(window.receive(3));
    let (acks, nacks) = window.drain();
    assert_eq!(acks, vec![3]);
    assert!(nacks.is_empty());
    let (acks, nacks) = window.drain();
    assert!(acks.is_empty() && nacks.is_empty());
    assert_eq!(window.start, 4);
}

#[test]
fn ascending_vectors() {
    let mut v: Vec<u32> = Vec::new();
    for x in [5, 1, 3, 1, 9, 5] {
        insert_ascending(&mut v, x);
    }
    assert_eq!(v, vec![1, 3, 5, 9]);
    assert!(holds(&v, 3));
    assert!(!holds(&v, 4));
    remove_ascending(&mut v, 3);
    remove_ascending(&mut v, 4);
    assert_eq!(v, vec![1, 5, 9]);
}

#[test]
fn message_window_delivers_an_index_once() {
    let mut window = MessageWindow::new();
    assert!(window.receive(3));
    let (start, end, held) = (window.start, window.end, window.indexes.clone());
    assert!(!window.receive(3));
    assert_eq!((window.start, window.end, window.indexes.clone()), (start, end, held));
    assert!(window.receive(0));
    assert_eq!((window.start, window.end), (1, 2049));
    assert!(!window.receive(0));
    assert!(window.receive(1));
    assert!(window.receive(2));
    assert_eq!((window.start, window.end), (4, 2052));
    assert!(window.indexes.is_empty());
    for index in 0..4 {
        assert!(!window.receive(index));
    }
    assert!(!window.receive(2052));
    assert!(window.receive(2051));
}

#[test]
fn split_window_joins_fragments_in_the_order_of_their_indices() {
    let mut window = SplitWindow::new(3);
    assert_eq!(window.receive(2, vec![5, 6]), None);
    assert_eq!(window.receive(0, vec![1, 2]), None);
    assert_eq!(window.receive(2, vec![7]), None);
    assert_eq!(window.receive(3, vec![9]), None);
    assert_eq!(window.receive(1, vec![3, 4]), Some(vec![1, 2, 3, 4, 7]));
}

#[test]
fn split_window_of_one_fragment() {
    let mut window = SplitWindow::new(1);
    assert_eq!(window.receive(1, vec![1]), None);
    assert_eq!(window.receive(0, vec![8, 9]), Some(vec![8, 9]));
    let mut empty = SplitWindow::new(0);
    assert_eq!(empty.receive(0, vec![1]), None);
}

#[test]
fn recovery_window_measures_the_round_trip() {
    let mut window = RecoveryWindow::new();
    window.add(0, Bytes::from_static(b"zero"), 1_000);
    window.add(1, Bytes::from_static(b"one"), 1_010);
    window.acknowledge(0, 1_100);
    assert_eq!(window.delays, vec![Sample { at: 1_100, delay: 100 }]);
    window.acknowledge(0, 1_200);
    assert_eq!(window.delays.len(), 1);
    assert_eq!(window.retransmit(1, 1_110), Some(Bytes::from_static(b"one")));
    assert_eq!(window.retransmit(1, 1_110), None);
    assert_eq!(window.delays[1], Sample { at: 1_110, delay: 200 });
    assert!(window.unacknowledged.is_empty());
    assert_eq!(window.rtt(1_200), 150);
    assert_eq!(window.delays.len(), 2);
}

#[test]
fn rtt_of_no_samples_is_zero() {
    let mut window = RecoveryWindow::new();
    assert_eq!(window.rtt(0), 0);
    assert_eq!(window.rtt(u64::MAX), 0);
}

#[test]
fn rtt_forgets_samples_older_than_five_seconds() {
    let mut window = RecoveryWindow::new();
    window.add(0, Bytes::from_static(b"a"), 0);
    window.add(1, Bytes::from_static(b"b"), 0);
    window.add(2, Bytes::from_static(b"c"), 6_000);
    window.acknowledge(0, 40);
    window.acknowledge(1, 1_000);
    assert_eq!(window.rtt(5_040), 520);
    assert_eq!(window.rtt(5_041), 1_000);
    assert_eq!(window.delays, vec![Sample { at: 1_000, delay: 1_000 }]);
    window.acknowledge(2, 6_001);
    assert_eq!(window.rtt(6_001), 1);
    assert_eq!(window.rtt(11_002), 0);
    assert!(window.delays.is_empty());
}

#[test]
fn rtt_over_old_samples_only_is_zero() {
    let mut window = RecoveryWindow::new();
    for seq in 0..10 {
        window.add(seq, Bytes::from_static(b"x"), 100);
        window.acknowledge(seq, 200 + seq as u64);
    }
    assert_eq!(window.rtt(5_300), 0);
}

#[test]
fn clock_that_goes_back_gives_no_delay() {
    let mut window = RecoveryWindow::new();
    window.add(0, Bytes::from_static(b"x"), 500);
    window.acknowledge(0, 400);
    assert_eq!(window.delays, vec![Sample { at: 400, delay: 0 }]);
    window.add(1, Bytes::from_static(b"x"), 0);
    assert!(window.retransmit(1, u64::MAX).is_some());
    assert_eq!(window.delays[1].delay, u64::MAX);
    assert_eq!(window.rtt(u64::MAX), u64::MAX);
}

#[test]
fn timestamp_counts_whole_seconds() {
    assert_eq!(raknet::generic::timestamp(0), 0);
    assert_eq!(raknet::generic::timestamp(999), 0);
    assert_eq!(raknet::generic::timestamp(1_000), 1);
    assert_eq!(raknet::generic::timestamp(1_700_000_000_999), 1_700_000_000);
    assert_eq!(raknet::generic::timestamp(u64::MAX), u64::MAX / 1000);
}
