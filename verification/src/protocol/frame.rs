//! Frames: the chunks of a message that a datagram carries, each with a
//! header that states its reliability class and, for a fragment, its place
//! in the message.

use bytes::BytesMut;
use vstd::prelude::*;

use super::binary::{
    avail, be, contents, le, lemma_be_len, lemma_be_roundtrip, lemma_fits_widths, lemma_le_len,
    lemma_le_roundtrip, put_u16, put_u24_le, put_u32, put_u8, u16_at, u24_at, u32_at, Error,
    Reader,
};
use super::reliability::Reliability;
use super::{
    DATAGRAM_HEADER_SIZE, FLAG_FRAGMENTED, FRAME_ADDITIONAL_SIZE, FRAME_HEADER_SIZE, MIN_MTU_SIZE,
    U24_MAX, UDP_HEADER_SIZE,
};

verus! {

/// What a frame says of the fragment it carries: the number of fragments, the
/// split id and the index of the fragment.
pub ghost struct Split {
    pub count: u32,
    pub id: u16,
    pub index: u32,
}

/// The number of bytes of a frame header.
pub open spec fn header_size(reliability: Reliability, fragmented: bool) -> int {
    3 + (if reliability.is_reliable() {
        3int
    } else {
        0int
    }) + (if reliability.is_sequenced() {
        3int
    } else {
        0int
    }) + (if reliability.is_sequenced_or_ordered() {
        4int
    } else {
        0int
    }) + (if fragmented {
        10int
    } else {
        0int
    })
}

/// The header of a frame: the reliability class in the top three bits and the
/// fragment flag; the length of the content in bits; the message index of a
/// reliable frame; the sequence index of a sequenced frame; the order index
/// and channel 0 of a sequenced or ordered frame; count, id and index of a
/// fragment.
pub open spec fn frame_header(
    reliability: Reliability,
    length: int,
    message_index: int,
    sequence_index: int,
    order_index: int,
    split: Option<Split>,
) -> Seq<u8> {
    seq![
        if split is Some {
            (reliability.id() << 5) | FLAG_FRAGMENTED
        } else {
            reliability.id() << 5
        },
    ] + be((length * 8) as nat, 2) + (if reliability.is_reliable() {
        le(message_index as nat, 3)
    } else {
        Seq::empty()
    }) + (if reliability.is_sequenced() {
        le(sequence_index as nat, 3)
    } else {
        Seq::empty()
    }) + (if reliability.is_sequenced_or_ordered() {
        le(order_index as nat, 3) + seq![0u8]
    } else {
        Seq::empty()
    }) + (match split {
        Some(s) => be(s.count as nat, 4) + be(s.id as nat, 2) + be(s.index as nat, 4),
        None => Seq::empty(),
    })
}

/// The most bytes of a message that one frame carries at this MTU: what the
/// headers of IP, UDP, the datagram and a frame leave, less the fragment
/// fields where the message does not fit that.
pub open spec fn fragment_size(mtu: int, len: int) -> int {
    let max = mtu - UDP_HEADER_SIZE - DATAGRAM_HEADER_SIZE - FRAME_HEADER_SIZE;
    if len > max {
        max - FRAME_ADDITIONAL_SIZE
    } else {
        max
    }
}

/// The number of frames that a message of `len` bytes is sent in.
pub open spec fn fragment_count(mtu: int, len: int) -> int {
    let size = fragment_size(mtu, len);
    len / size + if len % size != 0 {
        1int
    } else {
        0int
    }
}

/// The bytes of a message that its fragment `index` carries.
pub open spec fn fragment(payload: Seq<u8>, size: int, index: int) -> Seq<u8> {
    payload.subrange(
        index * size,
        if (index + 1) * size > payload.len() {
            payload.len() as int
        } else {
            (index + 1) * size
        },
    )
}

/// A frame as read from a datagram: its class, the message index of a
/// reliable frame, what it says of its fragment, and its content.
pub ghost struct Frame {
    pub reliability: Reliability,
    pub message_index: u32,
    pub split: Option<Split>,
    pub content: Seq<u8>,
}

impl Frame {
    /// The number of bytes that the frame takes in a datagram.
    pub open spec fn size(self) -> int {
        header_size(self.reliability, self.split is Some) + self.content.len()
    }
}

/// The frame that starts at `at`. The sequence index and the order index and
/// channel of a frame are skipped unread.
#[verifier::opaque]
pub open spec fn parse_frame(s: Seq<u8>, at: int) -> Result<Frame, Error> {
    if !avail(s, at, 1) {
        Err(Error::UnexpectedEof)
    } else {
        match Reliability::from_id((s[at] & 224) >> 5) {
            None => Err(Error::InvalidReliability),
            Some(reliability) => {
                let fragmented = s[at] & FLAG_FRAGMENTED != 0;
                let size = header_size(reliability, fragmented);
                if !avail(s, at + 1, 2) {
                    Err(Error::UnexpectedEof)
                } else if u16_at(s, at + 1) >> 3 == 0 {
                    Err(Error::EmptyFrame)
                } else if !avail(s, at, size + (u16_at(s, at + 1) >> 3)) {
                    Err(Error::UnexpectedEof)
                } else {
                    Ok(
                        Frame {
                            reliability,
                            message_index: if reliability.is_reliable() {
                                u24_at(s, at + 3)
                            } else {
                                0
                            },
                            split: if fragmented {
                                Some(
                                    Split {
                                        count: u32_at(s, at + size - 10),
                                        id: u16_at(s, at + size - 6),
                                        index: u32_at(s, at + size - 4),
                                    },
                                )
                            } else {
                                None
                            },
                            content: s.subrange(
                                at + size,
                                at + size + (u16_at(s, at + 1) >> 3),
                            ),
                        },
                    )
                }
            },
        }
    }
}

/// A frame as read from a datagram.
pub struct RawFrame<'a> {
    pub reliability: Reliability,
    pub message_index: u32,
    pub split: Option<(u32, u16, u32)>,
    pub content: &'a [u8],
}

impl<'a> RawFrame<'a> {
    /// The frame as a mathematical value.
    pub open spec fn frame(&self) -> Frame {
        Frame {
            reliability: self.reliability,
            message_index: self.message_index,
            split: match self.split {
                Some(s) => Some(Split { count: s.0, id: s.1, index: s.2 }),
                None => None,
            },
            content: self.content@,
        }
    }
}

/// Reads the frame that starts where the reader stands.
pub fn read_frame<'a>(r: &mut Reader<'a>) -> (res: Result<RawFrame<'a>, Error>)
    requires
        old(r).wf(),
    ensures
        final(r).buf@ == old(r).buf@,
        final(r).wf(),
        match parse_frame(old(r).buf@, old(r).pos as int) {
            Ok(frame) => res is Ok && res->Ok_0.frame() == frame && res->Ok_0.message_index
                <= U24_MAX && final(r).pos == old(r).pos + frame.size(),
            Err(e) => res is Err && res->Err_0 == e,
        },
{
    reveal(parse_frame);
    let header: u8 = r.read_u8()?;
    let reliability = Reliability::try_from((header & 224) >> 5)?;
    let fragmented: bool = header & FLAG_FRAGMENTED != 0;
    let bits: u16 = r.read_u16()?;
    let length: u16 = bits >> 3;
    if length == 0 {
        return Err(Error::EmptyFrame);
    }
    let mut message_index: u32 = 0;
    if reliability.reliable() {
        message_index = r.read_u24()?;
    }
    if reliability.sequenced() {
        r.skip(3)?;
    }
    if reliability.sequenced_or_ordered() {
        r.skip(4)?;
    }
    let mut split: Option<(u32, u16, u32)> = None;
    if fragmented {
        let count: u32 = r.read_u32()?;
        let id: u16 = r.read_u16()?;
        let index: u32 = r.read_u32()?;
        split = Some((count, id, index));
    }
    let content = r.take(length as usize)?;
    Ok(RawFrame { reliability, message_index, split, content })
}

/// The length of a frame header.
pub fn header_len(reliability: Reliability, fragmented: bool) -> (n: usize)
    ensures
        n == header_size(reliability, fragmented),
        n <= 23,
{
    let mut n: usize = 3;
    if reliability.reliable() {
        n = n + 3;
    }
    if reliability.sequenced() {
        n = n + 3;
    }
    if reliability.sequenced_or_ordered() {
        n = n + 4;
    }
    if fragmented {
        n = n + 10;
    }
    n
}

/// Appends a 24-bit index, if the frame has it.
fn put_index(buf: &mut BytesMut, present: bool, index: u32)
    ensures
        contents(*final(buf)) == contents(*old(buf)) + (if present {
            le(index as nat, 3)
        } else {
            Seq::empty()
        }),
{
    if present {
        put_u24_le(buf, index);
    } else {
        assert(contents(*buf) =~= contents(*old(buf)) + Seq::<u8>::empty());
    }
}

/// Appends the order index and the order channel 0, if the frame has them.
fn put_order(buf: &mut BytesMut, present: bool, order_index: u32)
    ensures
        contents(*final(buf)) == contents(*old(buf)) + (if present {
            le(order_index as nat, 3) + seq![0u8]
        } else {
            Seq::empty()
        }),
{
    if present {
        put_u24_le(buf, order_index);
        put_u8(buf, 0);
        assert(contents(*buf) =~= contents(*old(buf)) + (le(order_index as nat, 3) + seq![0u8]));
    } else {
        assert(contents(*buf) =~= contents(*old(buf)) + Seq::<u8>::empty());
    }
}

/// Appends the fragment fields, if the frame is a fragment.
fn put_split(buf: &mut BytesMut, split: Option<(u32, u16, u32)>)
    ensures
        contents(*final(buf)) == contents(*old(buf)) + (match split {
            Some(s) => be(s.0 as nat, 4) + be(s.1 as nat, 2) + be(s.2 as nat, 4),
            None => Seq::empty(),
        }),
{
    match split {
        Some(s) => {
            put_u32(buf, s.0);
            put_u16(buf, s.1);
            put_u32(buf, s.2);
            assert(contents(*buf) =~= contents(*old(buf)) + (be(s.0 as nat, 4) + be(s.1 as nat, 2)
                + be(s.2 as nat, 4)));
        },
        None => {
            assert(contents(*buf) =~= contents(*old(buf)) + Seq::<u8>::empty());
        },
    }
}

/// Appends the header of a frame.
pub fn write_header(
    buf: &mut BytesMut,
    reliability: Reliability,
    length: usize,
    message_index: u32,
    sequence_index: u32,
    order_index: u32,
    split: Option<(u32, u16, u32)>,
)
    requires
        length <= 8191,
    ensures
        contents(*final(buf)) == contents(*old(buf)) + frame_header(
            reliability,
            length as int,
            message_index as int,
            sequence_index as int,
            order_index as int,
            match split {
                Some(s) => Some(Split { count: s.0, id: s.1, index: s.2 }),
                None => None,
            },
        ),
{
    let id: u8 = reliability.to_u8();
    let first: u8 = match split {
        Some(_) => (id << 5) | FLAG_FRAGMENTED,
        None => id << 5,
    };
    put_u8(buf, first);
    put_u16(buf, (length * 8) as u16);
    put_index(buf, reliability.reliable(), message_index);
    put_index(buf, reliability.sequenced(), sequence_index);
    put_order(buf, reliability.sequenced_or_ordered(), order_index);
    put_split(buf, split);
    assert(contents(*buf) =~= contents(*old(buf)) + frame_header(
        reliability,
        length as int,
        message_index as int,
        sequence_index as int,
        order_index as int,
        match split {
            Some(s) => Some(Split { count: s.0, id: s.1, index: s.2 }),
            None => None,
        },
    ));
}

/// The fragments of a message lie within it, one after the other.
pub proof fn lemma_fragment_bounds(len: int, size: int, index: int)
    requires
        size > 0,
        len >= 0,
        0 <= index < len / size + if len % size != 0 {
            1int
        } else {
            0int
        },
    ensures
        0 <= index * size < len,
        (index + 1) * size == index * size + size,
{
    assert((index + 1) * size == index * size + size) by (nonlinear_arith);
    assert(index * size < len && 0 <= index * size) by (nonlinear_arith)
        requires
            size > 0,
            len >= 0,
            0 <= index,
            index < len / size + if len % size != 0 {
                1int
            } else {
                0int
            },
    ;
}

// ---------------------------------------------------------------------------
// The number of fragments
// ---------------------------------------------------------------------------

/// `a` divided by `b`, rounded up.
pub open spec fn ceil_div(a: int, b: int) -> int {
    (a + b - 1) / b
}

/// Rounding up: the quotient is the one number `c` with `(c - 1) * b < a <= c * b`.
proof fn lemma_ceil_div(a: int, b: int, c: int)
    requires
        b > 0,
        (c - 1) * b < a <= c * b,
    ensures
        ceil_div(a, b) == c,
        a / b + (if a % b != 0 {
            1int
        } else {
            0int
        }) == c,
{
    assert(ceil_div(a, b) == c) by (nonlinear_arith)
        requires
            b > 0,
            (c - 1) * b < a <= c * b,
            ceil_div(a, b) == (a + b - 1) / b,
    ;
    assert(a / b + (if a % b != 0 {
        1int
    } else {
        0int
    }) == c) by (nonlinear_arith)
        requires
            b > 0,
            (c - 1) * b < a <= c * b,
    ;
}

/// Rounding up gives a number `c` with `(c - 1) * b < a <= c * b`.
proof fn lemma_ceil_div_bounds(a: int, b: int)
    requires
        b > 0,
    ensures
        (ceil_div(a, b) - 1) * b < a <= ceil_div(a, b) * b,
{
    assert((ceil_div(a, b) - 1) * b < a <= ceil_div(a, b) * b) by (nonlinear_arith)
        requires
            b > 0,
            ceil_div(a, b) == (a + b - 1) / b,
    ;
}

/// A message of `len` bytes goes out in one frame where it fits what the
/// headers of IP, UDP, the datagram and a frame leave of the MTU, which are 42
/// bytes; otherwise in `len` divided by the MTU less 52, rounded up, the
/// fragment fields taking ten bytes more.
pub proof fn lemma_fragment_count(len: int, mtu: int)
    requires
        MIN_MTU_SIZE <= mtu,
        len >= 1,
    ensures
        fragment_count(mtu, len) == if len > mtu - 42 {
            ceil_div(len, mtu - 52)
        } else {
            1
        },
{
    if len > mtu - 42 {
        lemma_ceil_div_bounds(len, mtu - 52);
        lemma_ceil_div(len, mtu - 52, ceil_div(len, mtu - 52));
    } else {
        assert((1 - 1) * (mtu - 42) == 0) by (nonlinear_arith);
        assert(1 * (mtu - 42) == mtu - 42) by (nonlinear_arith);
        lemma_ceil_div(len, mtu - 42, 1);
    }
}

/// Counted with headers of 38 and 48 bytes instead: a message of `len` bytes
/// goes out in `len` divided by the MTU less 48, rounded up, where it is
/// longer than the MTU less 38, and in one frame otherwise. This holds where
/// the message fits one frame as it is, and where it is longer than the MTU
/// less 38 and that many fragments of the MTU less 52 bytes hold it.
pub proof fn lemma_fragment_count_short_headers(len: int, mtu: int)
    requires
        MIN_MTU_SIZE <= mtu,
        len >= 1,
        len <= mtu - 42 || (len > mtu - 38 && len <= ceil_div(len, mtu - 48) * (mtu - 52)),
    ensures
        fragment_count(mtu, len) == if len > mtu - 38 {
            ceil_div(len, mtu - 48)
        } else {
            1
        },
{
    lemma_fragment_count(len, mtu);
    if len > mtu - 38 {
        let q = ceil_div(len, mtu - 48);
        lemma_ceil_div_bounds(len, mtu - 48);
        assert(q >= 1) by (nonlinear_arith)
            requires
                len >= 1,
                mtu - 48 > 0,
                len <= q * (mtu - 48),
        ;
        assert((q - 1) * (mtu - 52) <= (q - 1) * (mtu - 48)) by (nonlinear_arith)
            requires
                q >= 1,
        ;
        lemma_ceil_div(len, mtu - 52, q);
    }
}


// ---------------------------------------------------------------------------
// What is written comes back
// ---------------------------------------------------------------------------

/// The first byte of a frame header gives back the class and the fragment
/// flag that went into it.
proof fn lemma_header_byte(id: u8, flag: u8)
    by (bit_vector)
    requires
        id <= 4,
        flag == 0x10,
    ensures
        ((id << 5) & 224) >> 5 == id,
        (id << 5) & flag == 0,
        (((id << 5) | flag) & 224) >> 5 == id,
        ((id << 5) | flag) & flag != 0,
{
}

/// A length in bits gives back the length in bytes.
proof fn lemma_bit_length(bits: u16, len: u16)
    by (bit_vector)
    requires
        len <= 8191,
        bits == len * 8,
    ensures
        bits >> 3 == len,
{
}

/// The header of a frame is as long as `header_size` says.
pub proof fn lemma_header_len(
    reliability: Reliability,
    length: int,
    message_index: int,
    sequence_index: int,
    order_index: int,
    split: Option<Split>,
)
    ensures
        frame_header(reliability, length, message_index, sequence_index, order_index, split).len()
            == header_size(reliability, split is Some),
{
    lemma_be_len((length * 8) as nat, 2);
    lemma_le_len(message_index as nat, 3);
    lemma_le_len(sequence_index as nat, 3);
    lemma_le_len(order_index as nat, 3);
    match split {
        Some(s) => {
            lemma_be_len(s.count as nat, 4);
            lemma_be_len(s.id as nat, 2);
            lemma_be_len(s.index as nat, 4);
        },
        None => {},
    }
}

/// What is written comes back: a frame reads back from its own bytes as the
/// class, the message index, the fragment fields and the content that went
/// into it, whatever stands before and after it. The content is between 1
/// and 8191 bytes long, which is what the length field can state.
pub proof fn lemma_frame_roundtrip(
    before: Seq<u8>,
    reliability: Reliability,
    message_index: u32,
    sequence_index: u32,
    order_index: u32,
    split: Option<Split>,
    content: Seq<u8>,
    after: Seq<u8>,
)
    requires
        1 <= content.len() <= 8191,
        message_index <= U24_MAX,
        sequence_index <= U24_MAX,
        order_index <= U24_MAX,
    ensures
        parse_frame(
            before + frame_header(
                reliability,
                content.len() as int,
                message_index as int,
                sequence_index as int,
                order_index as int,
                split,
            ) + content + after,
            before.len() as int,
        ) == Ok::<Frame, Error>(
            Frame {
                reliability,
                message_index: if reliability.is_reliable() {
                    message_index
                } else {
                    0
                },
                split,
                content,
            },
        ),
{
    reveal(parse_frame);
    let len = content.len() as int;
    let header = frame_header(
        reliability,
        len,
        message_index as int,
        sequence_index as int,
        order_index as int,
        split,
    );
    let s = before + header + content + after;
    let at = before.len() as int;
    let size = header_size(reliability, split is Some);
    let id = reliability.id();
    let first: u8 = if split is Some {
        (id << 5) | FLAG_FRAGMENTED
    } else {
        id << 5
    };
    let bits = be((len * 8) as nat, 2);
    let p1 = if reliability.is_reliable() {
        le(message_index as nat, 3)
    } else {
        Seq::<u8>::empty()
    };
    let p2 = if reliability.is_sequenced() {
        le(sequence_index as nat, 3)
    } else {
        Seq::<u8>::empty()
    };
    let p3 = if reliability.is_sequenced_or_ordered() {
        le(order_index as nat, 3) + seq![0u8]
    } else {
        Seq::<u8>::empty()
    };
    let p4 = match split {
        Some(f) => be(f.count as nat, 4) + be(f.id as nat, 2) + be(f.index as nat, 4),
        None => Seq::<u8>::empty(),
    };
    lemma_header_len(
        reliability,
        len,
        message_index as int,
        sequence_index as int,
        order_index as int,
        split,
    );
    lemma_fits_widths();
    lemma_be_roundtrip((len * 8) as nat, 2);
    lemma_le_roundtrip(message_index as nat, 3);
    lemma_le_len(sequence_index as nat, 3);
    lemma_le_len(order_index as nat, 3);
    lemma_header_byte(id, FLAG_FRAGMENTED);
    lemma_bit_length((len * 8) as u16, len as u16);
    assert(header == seq![first] + bits + p1 + p2 + p3 + p4);
    assert(s[at] == first);
    assert(s.subrange(at + 1, at + 3) =~= bits);
    assert(u16_at(s, at + 1) == (len * 8) as u16);
    assert(u16_at(s, at + 1) >> 3 == len);
    assert(Reliability::from_id((s[at] & 224) >> 5) == Some(reliability));
    assert((s[at] & FLAG_FRAGMENTED != 0) == (split is Some));
    assert(s.len() == at + size + len + after.len());
    if reliability.is_reliable() {
        assert(s.subrange(at + 3, at + 6) =~= le(message_index as nat, 3));
    }
    match split {
        Some(f) => {
            lemma_be_roundtrip(f.count as nat, 4);
            lemma_be_roundtrip(f.id as nat, 2);
            lemma_be_roundtrip(f.index as nat, 4);
            assert(p4.len() == 10);
            assert(s.subrange(at + size - 10, at + size) =~= p4);
            assert(s.subrange(at + size - 10, at + size - 6) =~= be(f.count as nat, 4));
            assert(s.subrange(at + size - 6, at + size - 4) =~= be(f.id as nat, 2));
            assert(s.subrange(at + size - 4, at + size) =~= be(f.index as nat, 4));
        },
        None => {},
    }
    assert(s.subrange(at + size, at + size + len) =~= content);
}

} // verus!
