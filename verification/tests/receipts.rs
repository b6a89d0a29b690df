use bytes::BytesMut;
use raknet::protocol::binary::{Error, Reader};
use raknet::protocol::receipt::{collect_runs, read_receipts, write_receipt};

fn body(records: &Vec<(u32, u32)>) -> Vec<u8> {
    let mut buf = BytesMut::new();
    write_receipt(&mut buf, 0xc0, records, 0, records.len());
    assert_eq!(buf[0], 0xc0);
    buf[1..].to_vec()
}

#[test]
fn runs_are_maximal() {
    assert_eq!(collect_runs(&vec![]), vec![]);
    assert_eq!(collect_runs(&vec![5]), vec![(5, 5)]);
    assert_eq!(collect_runs(&vec![0, 1, 2, 3]), vec![(0, 3)]);
    assert_eq!(collect_runs(&vec![0, 2]), vec![(0, 0), (2, 2)]);
    assert_eq!(
        collect_runs(&vec![1, 2, 3, 7, 9, 10, 20]),
        vec![(1, 3), (7, 7), (9, 10), (20, 20)]
    );
}

#[test]
fn receipt_bytes() {
    let records = collect_runs(&vec![1, 2, 3, 7, 0x010203]);
    assert_eq!(
        body(&records),
        vec![0, 3, 0, 1, 0, 0, 3, 0, 0, 1, 7, 0, 0, 1, 0x03, 0x02, 0x01]
    );
}

#[test]
fn part_of_the_records_can_be_written() {
    let records = vec![(1, 3), (7, 7), (9, 10)];
    let mut buf = BytesMut::new();
    write_receipt(&mut buf, 0xa0, &records, 1, 2);
    assert_eq!(&buf[..], &[0xa0, 0, 1, 1, 7, 0, 0]);
    let mut buf = BytesMut::new();
    write_receipt(&mut buf, 0xa0, &records, 3, 3);
    assert_eq!(&buf[..], &[0xa0, 0, 0]);
}

#[test]
fn receipts_come_back() {
    for seqs in [vec![], vec![0], vec![0, 2], vec![1, 2, 3, 7, 9, 10, 20], vec![0xff_fffe, 0xff_ffff]]
    {
        let records = collect_runs(&seqs);
        let bytes = body(&records);
        let mut reader = Reader::new(&bytes);
        assert_eq!(read_receipts(&mut reader), Ok(records));
        assert_eq!(reader.remaining(), 0);
    }
}

#[test]
fn receipt_with_an_unknown_record_type_fails() {
    let mut reader = Reader::new(&[0, 1, 2, 0, 0, 0]);
    assert_eq!(read_receipts(&mut reader), Err(Error::InvalidRecordType));
}

#[test]
fn short_receipts_fail() {
    let mut reader = Reader::new(&[0]);
    assert_eq!(read_receipts(&mut reader), Err(Error::UnexpectedEof));
    let mut reader = Reader::new(&[0, 1]);
    assert_eq!(read_receipts(&mut reader), Err(Error::UnexpectedEof));
    let mut reader = Reader::new(&[0, 1, 1, 0, 0]);
    assert_eq!(read_receipts(&mut reader), Err(Error::UnexpectedEof));
    let mut reader = Reader::new(&[0, 2, 1, 0, 0, 0, 0, 1, 0, 0, 2, 0]);
    assert_eq!(read_receipts(&mut reader), Err(Error::UnexpectedEof));
}

#[test]
fn negative_record_count_announces_nothing() {
    let mut reader = Reader::new(&[0x80, 0x00, 1, 0, 0, 0]);
    assert_eq!(read_receipts(&mut reader), Ok(vec![]));
    let mut reader = Reader::new(&[0xff, 0xff]);
    assert_eq!(read_receipts(&mut reader), Ok(vec![]));
}

#[test]
fn range_records_are_read_as_they_stand() {
    let mut reader = Reader::new(&[0, 2, 0, 5, 0, 0, 5, 0, 0, 0, 9, 0, 0, 2, 0, 0]);
    assert_eq!(read_receipts(&mut reader), Ok(vec![(5, 5), (9, 2)]));
}
