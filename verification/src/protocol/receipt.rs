//! Receipts: the run-length encoded lists of datagram sequence numbers that a
//! peer acknowledges or reports missing.

use bytes::BytesMut;
use vstd::prelude::*;

use super::binary::{
    avail, be, contents, le, lemma_be_roundtrip, lemma_fits_widths, lemma_le_roundtrip, put_u16,
    put_u24_le, put_u8, u16_at, u24_at, Error, Reader,
};
use super::{MAX_RECEIPT_RECORDS, U24_MAX};
use crate::generic::window::ascending;

verus! {

/// The records that stand for the ascending numbers `s`: each number either
/// lengthens the last record, where it follows its end directly, or starts a
/// record of its own. A record is the first and the last number of a run.
pub open spec fn runs(s: Seq<u32>) -> Seq<(u32, u32)>
    decreases s.len(),
{
    if s.len() == 0 {
        Seq::empty()
    } else {
        let prev = runs(s.drop_last());
        let x = s.last();
        if prev.len() > 0 && prev.last().1 + 1 == x {
            prev.drop_last().push((prev.last().0, x))
        } else {
            prev.push((x, x))
        }
    }
}

/// The numbers that one record stands for: from its first to its last, both
/// included; none where the first is above the last.
pub open spec fn span(r: (u32, u32)) -> Seq<u32> {
    if r.0 <= r.1 {
        Seq::new((r.1 - r.0 + 1) as nat, |i: int| (r.0 + i) as u32)
    } else {
        Seq::empty()
    }
}

/// The numbers that the records stand for, in their order.
pub open spec fn expand(records: Seq<(u32, u32)>) -> Seq<u32>
    decreases records.len(),
{
    if records.len() == 0 {
        Seq::empty()
    } else {
        expand(records.drop_last()) + span(records.last())
    }
}

/// One record on the wire: type 1 and a number for a single number, type 0
/// and the two ends for a range. The numbers are little-endian in 24 bits.
pub open spec fn record_bytes(r: (u32, u32)) -> Seq<u8> {
    if r.0 == r.1 {
        seq![1u8] + le(r.0 as nat, 3)
    } else {
        seq![0u8] + le(r.0 as nat, 3) + le(r.1 as nat, 3)
    }
}

/// The records on the wire, one after the other.
pub open spec fn records_bytes(records: Seq<(u32, u32)>) -> Seq<u8>
    decreases records.len(),
{
    if records.len() == 0 {
        Seq::empty()
    } else {
        record_bytes(records[0]) + records_bytes(records.drop_first())
    }
}

/// The body of a receipt: the number of records in 16 bits, big-endian, then
/// the records.
pub open spec fn receipt_body(records: Seq<(u32, u32)>) -> Seq<u8> {
    be(records.len(), 2) + records_bytes(records)
}

/// A receipt datagram: the flag byte, then the body.
pub open spec fn receipt(flag: u8, records: Seq<(u32, u32)>) -> Seq<u8> {
    seq![flag] + receipt_body(records)
}

/// The receipt datagrams for the records: one, unless there are more records
/// than the count of a receipt can state; then as many as it takes.
pub open spec fn receipts(flag: u8, records: Seq<(u32, u32)>) -> Seq<Seq<u8>>
    decreases records.len(),
{
    if records.len() == 0 {
        Seq::empty()
    } else if records.len() <= MAX_RECEIPT_RECORDS {
        seq![receipt(flag, records)]
    } else {
        seq![receipt(flag, records.take(MAX_RECEIPT_RECORDS as int))] + receipts(
            flag,
            records.skip(MAX_RECEIPT_RECORDS as int),
        )
    }
}

/// The `n` records that start at `at`.
pub open spec fn parse_records(s: Seq<u8>, at: int, n: nat) -> Result<Seq<(u32, u32)>, Error>
    decreases n,
{
    if n == 0 {
        Ok(Seq::empty())
    } else if !avail(s, at, 1) {
        Err(Error::UnexpectedEof)
    } else if s[at] == 0 {
        if !avail(s, at + 1, 6) {
            Err(Error::UnexpectedEof)
        } else {
            match parse_records(s, at + 7, (n - 1) as nat) {
                Ok(rest) => Ok(seq![(u24_at(s, at + 1), u24_at(s, at + 4))] + rest),
                Err(e) => Err(e),
            }
        }
    } else if s[at] == 1 {
        if !avail(s, at + 1, 3) {
            Err(Error::UnexpectedEof)
        } else {
            match parse_records(s, at + 4, (n - 1) as nat) {
                Ok(rest) => Ok(seq![(u24_at(s, at + 1), u24_at(s, at + 1))] + rest),
                Err(e) => Err(e),
            }
        }
    } else {
        Err(Error::InvalidRecordType)
    }
}

/// The number of records that a count field announces. The field is signed:
/// with its top bit set it announces none.
pub open spec fn announced(count: u16) -> nat {
    if count >= 0x8000 {
        0
    } else {
        count as nat
    }
}

/// The records of the receipt body that starts at `at`.
pub open spec fn parse_receipt(s: Seq<u8>, at: int) -> Result<Seq<(u32, u32)>, Error> {
    if !avail(s, at, 2) {
        Err(Error::UnexpectedEof)
    } else {
        parse_records(s, at + 2, announced(u16_at(s, at)))
    }
}

/// The records for the ascending numbers `seqs`.
pub fn collect_runs(seqs: &Vec<u32>) -> (records: Vec<(u32, u32)>)
    requires
        ascending(seqs@),
    ensures
        records@ == runs(seqs@),
{
    let mut records: Vec<(u32, u32)> = Vec::new();
    let mut i: usize = 0;
    while i < seqs.len()
        invariant
            i <= seqs@.len(),
            ascending(seqs@),
            records@ == runs(seqs@.take(i as int)),
            i > 0 ==> records@.len() > 0 && records@.last().1 == seqs@[i - 1],
        decreases seqs@.len() - i,
    {
        let x: u32 = seqs[i];
        proof {
            assert(seqs@.take(i + 1).drop_last() =~= seqs@.take(i as int));
            if i > 0 {
                assert(seqs@[i - 1] < seqs@[i as int]);
            }
        }
        let n: usize = records.len();
        if n > 0 && records[n - 1].1 + 1 == x {
            let first: u32 = records[n - 1].0;
            records.pop();
            records.push((first, x));
            assert(records@ =~= runs(seqs@.take(i + 1)));
        } else {
            records.push((x, x));
        }
        i = i + 1;
    }
    assert(seqs@.take(seqs@.len() as int) =~= seqs@);
    records
}

/// Appends one record to `buf`.
fn write_record(buf: &mut BytesMut, first: u32, last: u32)
    ensures
        contents(*final(buf)) == contents(*old(buf)) + record_bytes((first, last)),
{
    if first == last {
        put_u8(buf, 1);
        put_u24_le(buf, first);
    } else {
        put_u8(buf, 0);
        put_u24_le(buf, first);
        put_u24_le(buf, last);
    }
    assert(contents(*buf) =~= contents(*old(buf)) + record_bytes((first, last)));
}

/// The bytes of two lists of records in a row are the bytes of the one list
/// followed by the bytes of the other.
pub proof fn lemma_records_bytes_add(a: Seq<(u32, u32)>, b: Seq<(u32, u32)>)
    ensures
        records_bytes(a + b) == records_bytes(a) + records_bytes(b),
    decreases a.len(),
{
    if a.len() == 0 {
        assert(a + b =~= b);
        assert(records_bytes(a) + records_bytes(b) =~= records_bytes(b));
    } else {
        lemma_records_bytes_add(a.drop_first(), b);
        assert((a + b).drop_first() =~= a.drop_first() + b);
        assert(records_bytes(a + b) =~= records_bytes(a) + records_bytes(b));
    }
}

/// Appends a receipt for the records `from..to` of `records` to `buf`: the
/// flag byte, their number, and the records.
pub fn write_receipt(buf: &mut BytesMut, flag: u8, records: &Vec<(u32, u32)>, from: usize, to: usize)
    requires
        from <= to <= records@.len(),
        to - from <= MAX_RECEIPT_RECORDS,
    ensures
        contents(*final(buf)) == contents(*old(buf)) + receipt(
            flag,
            records@.subrange(from as int, to as int),
        ),
{
    let ghost part = records@.subrange(from as int, to as int);
    put_u8(buf, flag);
    put_u16(buf, (to - from) as u16);
    let ghost head = contents(*buf);
    assert(head =~= contents(*old(buf)) + seq![flag] + be(part.len(), 2));
    let mut i: usize = from;
    while i < to
        invariant
            from <= i <= to <= records@.len(),
            part == records@.subrange(from as int, to as int),
            contents(*buf) == head + records_bytes(records@.subrange(from as int, i as int)),
        decreases to - i,
    {
        let r = records[i];
        proof {
            let done = records@.subrange(from as int, i as int);
            lemma_records_bytes_add(done, seq![r]);
            assert(records@.subrange(from as int, i + 1) =~= done + seq![r]);
            assert(seq![r].drop_first() =~= Seq::<(u32, u32)>::empty());
            assert(records_bytes(Seq::<(u32, u32)>::empty()) =~= Seq::<u8>::empty());
            assert(records_bytes(seq![r]) =~= record_bytes(r));
        }
        write_record(buf, r.0, r.1);
        i = i + 1;
        assert(contents(*buf) =~= head + records_bytes(records@.subrange(from as int, i as int)));
    }
    assert(contents(*buf) =~= contents(*old(buf)) + receipt(flag, part));
}

/// Reads the body of a receipt: the count and as many records.
pub fn read_receipts(r: &mut Reader) -> (res: Result<Vec<(u32, u32)>, Error>)
    requires
        old(r).wf(),
    ensures
        final(r).buf@ == old(r).buf@,
        final(r).wf(),
        match parse_receipt(old(r).buf@, old(r).pos as int) {
            Ok(records) => res is Ok && res->Ok_0@ == records,
            Err(e) => res == Err::<Vec<(u32, u32)>, Error>(e),
        },
        res matches Ok(records) ==> forall|k: int|
            0 <= k < records@.len() ==> (#[trigger] records@[k]).0 <= U24_MAX && records@[k].1
                <= U24_MAX,
{
    let count: u16 = r.read_u16()?;
    let n: u16 = if count >= 0x8000 {
        0
    } else {
        count
    };
    let ghost s = r.buf@;
    let ghost start = r.pos as int;
    let mut records: Vec<(u32, u32)> = Vec::new();
    let mut i: u16 = 0;
    while i < n
        invariant
            i <= n,
            r.wf(),
            r.buf@ == s,
            s == old(r).buf@,
            parse_receipt(old(r).buf@, old(r).pos as int) == parse_records(s, start, n as nat),
            forall|k: int|
                0 <= k < records@.len() ==> (#[trigger] records@[k]).0 <= U24_MAX && records@[k].1
                    <= U24_MAX,
            parse_records(s, start, n as nat) == match parse_records(
                s,
                r.pos as int,
                (n - i) as nat,
            ) {
                Ok(rest) => Ok::<Seq<(u32, u32)>, Error>(records@ + rest),
                Err(e) => Err::<Seq<(u32, u32)>, Error>(e),
            },
        decreases n - i,
    {
        let ghost at = r.pos as int;
        let ghost done = records@;
        let kind: u8 = match r.read_u8() {
            Ok(kind) => kind,
            Err(e) => {
                return Err(e);
            },
        };
        if kind == 0 {
            let first: u32 = match r.read_u24() {
                Ok(v) => v,
                Err(e) => {
                    return Err(e);
                },
            };
            let last: u32 = match r.read_u24() {
                Ok(v) => v,
                Err(e) => {
                    return Err(e);
                },
            };
            records.push((first, last));
        } else if kind == 1 {
            let only: u32 = match r.read_u24() {
                Ok(v) => v,
                Err(e) => {
                    return Err(e);
                },
            };
            records.push((only, only));
        } else {
            return Err(Error::InvalidRecordType);
        }
        i = i + 1;
        proof {
            match parse_records(s, r.pos as int, (n - i) as nat) {
                Ok(rest) => {
                    assert(done + (seq![records@.last()] + rest) =~= records@ + rest);
                },
                Err(e) => {},
            }
        }
    }
    assert(records@ + Seq::<(u32, u32)>::empty() =~= records@);
    Ok(records)
}

// ---------------------------------------------------------------------------
// Laws
// ---------------------------------------------------------------------------

/// The numbers of a record that ends one higher are the numbers of the
/// record and that number.
proof fn lemma_span_push(first: u32, last: u32)
    requires
        first <= last < u32::MAX,
    ensures
        span((first, (last + 1) as u32)) == span((first, last)).push((last + 1) as u32),
{
    assert(span((first, (last + 1) as u32)) =~= span((first, last)).push((last + 1) as u32));
}

/// Run-length encoding is exact and minimal. The records for ascending
/// numbers stand for exactly those numbers; no record is empty; and between
/// two records that follow each other at least one number is left out, so no
/// two records could be one. A number without neighbours has a record of its
/// own whose two ends are that number, and so is written as a single.
pub proof fn lemma_runs_minimal(s: Seq<u32>)
    requires
        ascending(s),
    ensures
        expand(runs(s)) == s,
        s.len() > 0 ==> runs(s).len() > 0 && runs(s).last().1 == s.last(),
        runs(s).len() <= s.len(),
        forall|k: int| 0 <= k < runs(s).len() ==> (#[trigger] runs(s)[k]).0 <= runs(s)[k].1,
        forall|k: int|
            0 <= k < runs(s).len() - 1 ==> (#[trigger] runs(s)[k]).1 + 1 < runs(s)[k + 1].0,
    decreases s.len(),
{
    if s.len() > 0 {
        let head = s.drop_last();
        let x = s.last();
        let prev = runs(head);
        lemma_runs_minimal(head);
        if head.len() > 0 {
            assert(head.last() == s[s.len() - 2]);
            assert(s[s.len() - 2] < s[s.len() - 1]);
        }
        if prev.len() > 0 && prev.last().1 + 1 == x {
            let first = prev.last().0;
            let last = prev.last().1;
            let now = prev.drop_last().push((first, x));
            assert(prev[prev.len() - 1].0 <= prev[prev.len() - 1].1);
            lemma_span_push(first, last);
            assert(now.drop_last() =~= prev.drop_last());
            assert(expand(now) =~= expand(prev).push(x));
            assert(expand(prev).push(x) =~= s);
            assert forall|k: int| 0 <= k < now.len() implies (#[trigger] now[k]).0 <= now[k].1 by {
                if k < now.len() - 1 {
                    assert(now[k] == prev[k]);
                }
            }
            assert forall|k: int| 0 <= k < now.len() - 1 implies (#[trigger] now[k]).1 + 1 < now[k
                + 1].0 by {
                assert(now[k] == prev[k]);
                assert(prev[k].1 + 1 < prev[k + 1].0);
            }
        } else {
            let now = prev.push((x, x));
            assert(now.drop_last() =~= prev);
            assert(span((x, x)) =~= seq![x]);
            assert(expand(now) =~= expand(prev) + seq![x]);
            assert(expand(prev) + seq![x] =~= s);
            assert forall|k: int| 0 <= k < now.len() implies (#[trigger] now[k]).0 <= now[k].1 by {
                if k < now.len() - 1 {
                    assert(now[k] == prev[k]);
                }
            }
            assert forall|k: int| 0 <= k < now.len() - 1 implies (#[trigger] now[k]).1 + 1 < now[k
                + 1].0 by {
                if k < now.len() - 2 {
                    assert(now[k] == prev[k]);
                    assert(prev[k].1 + 1 < prev[k + 1].0);
                } else {
                    assert(now[k] == prev.last());
                }
            }
        }
    }
}

/// The ends of the records for ascending numbers are among those numbers,
/// and so no larger than the largest of them.
pub proof fn lemma_runs_bound(s: Seq<u32>)
    requires
        ascending(s),
    ensures
        forall|k: int|
            0 <= k < runs(s).len() ==> s.contains((#[trigger] runs(s)[k]).0) && s.contains(
                runs(s)[k].1,
            ),
    decreases s.len(),
{
    if s.len() > 0 {
        let head = s.drop_last();
        let x = s.last();
        let prev = runs(head);
        lemma_runs_bound(head);
        assert(s[s.len() - 1] == x);
        assert forall|k: int| 0 <= k < runs(s).len() implies s.contains(
            (#[trigger] runs(s)[k]).0,
        ) && s.contains(runs(s)[k].1) by {
            let now = runs(s);
            if k < prev.len() {
                assert(head.contains(prev[k].0) && head.contains(prev[k].1));
                let i = choose|i: int| 0 <= i < head.len() && head[i] == prev[k].0;
                assert(s[i] == prev[k].0);
                let j = choose|j: int| 0 <= j < head.len() && head[j] == prev[k].1;
                assert(s[j] == prev[k].1);
            }
        }
    }
}

/// A record reads back from its own bytes, whatever stands before and after
/// them.
proof fn lemma_record_roundtrip(before: Seq<u8>, r: (u32, u32), after: Seq<u8>, n: nat)
    requires
        r.0 <= U24_MAX,
        r.1 <= U24_MAX,
        n > 0,
    ensures
        parse_records(before + record_bytes(r) + after, before.len() as int, n) == match parse_records(
            before + record_bytes(r) + after,
            (before.len() + record_bytes(r).len()) as int,
            (n - 1) as nat,
        ) {
            Ok(rest) => Ok::<Seq<(u32, u32)>, Error>(seq![r] + rest),
            Err(e) => Err::<Seq<(u32, u32)>, Error>(e),
        },
        record_bytes(r).len() == if r.0 == r.1 {
            4nat
        } else {
            7nat
        },
{
    let s = before + record_bytes(r) + after;
    let at = before.len() as int;
    lemma_fits_widths();
    lemma_le_roundtrip(r.0 as nat, 3);
    lemma_le_roundtrip(r.1 as nat, 3);
    if r.0 == r.1 {
        assert(s[at] == 1);
        assert(s.subrange(at + 1, at + 4) =~= le(r.0 as nat, 3));
    } else {
        assert(s[at] == 0);
        assert(s.subrange(at + 1, at + 4) =~= le(r.0 as nat, 3));
        assert(s.subrange(at + 4, at + 7) =~= le(r.1 as nat, 3));
    }
}

/// Records read back from their own bytes, whatever stands before and after
/// them.
proof fn lemma_records_roundtrip(before: Seq<u8>, records: Seq<(u32, u32)>, after: Seq<u8>)
    requires
        forall|k: int|
            0 <= k < records.len() ==> (#[trigger] records[k]).0 <= U24_MAX && records[k].1
                <= U24_MAX,
    ensures
        parse_records(
            before + records_bytes(records) + after,
            before.len() as int,
            records.len(),
        ) == Ok::<Seq<(u32, u32)>, Error>(records),
    decreases records.len(),
{
    let s = before + records_bytes(records) + after;
    if records.len() == 0 {
        assert(records =~= Seq::<(u32, u32)>::empty());
    } else {
        let r = records[0];
        let rest = records.drop_first();
        assert(r.0 <= U24_MAX && r.1 <= U24_MAX);
        assert forall|k: int| 0 <= k < rest.len() implies (#[trigger] rest[k]).0 <= U24_MAX
            && rest[k].1 <= U24_MAX by {
            assert(rest[k] == records[k + 1]);
        }
        lemma_record_roundtrip(before, r, records_bytes(rest) + after, records.len());
        assert(s =~= before + record_bytes(r) + (records_bytes(rest) + after));
        lemma_records_roundtrip(before + record_bytes(r), rest, after);
        assert(s =~= (before + record_bytes(r)) + records_bytes(rest) + after);
        assert(seq![r] + rest =~= records);
    }
}

/// What is written comes back: the body of a receipt parses as its records,
/// whatever stands before it, where there are no more of them than a receipt
/// can state and each number fits 24 bits.
pub proof fn lemma_receipt_roundtrip(before: Seq<u8>, records: Seq<(u32, u32)>)
    requires
        records.len() <= MAX_RECEIPT_RECORDS,
        forall|k: int|
            0 <= k < records.len() ==> (#[trigger] records[k]).0 <= U24_MAX && records[k].1
                <= U24_MAX,
    ensures
        parse_receipt(before + receipt_body(records), before.len() as int) == Ok::<
            Seq<(u32, u32)>,
            Error,
        >(records),
{
    let s = before + receipt_body(records);
    let at = before.len() as int;
    let n = records.len() as u16;
    lemma_fits_widths();
    lemma_be_roundtrip(n as nat, 2);
    assert(s.subrange(at, at + 2) =~= be(n as nat, 2));
    lemma_records_roundtrip(before + be(n as nat, 2), records, Seq::empty());
    assert(s =~= (before + be(n as nat, 2)) + records_bytes(records) + Seq::<u8>::empty());
}

} // verus!
