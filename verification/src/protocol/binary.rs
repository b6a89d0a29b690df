//! Wire primitives: fixed-width integers, the output buffer, the input reader,
//! socket addresses, the system address list and the magic sequence.

use byteorder::{BigEndian, ByteOrder, LittleEndian};
use bytes::{BufMut, Bytes, BytesMut};
use vstd::prelude::*;
use vstd::slice::slice_subrange;

use super::{
    INTERNAL_ADDRESS_IP, INTERNAL_ADDRESS_PORT, SYSTEM_ADDRESS_COUNT, UNCONNECTED_MESSAGE_SEQUENCE,
};

verus! {

/// Reasons for which decoding a datagram, a frame or a message fails.
#[derive(Clone, Copy, Debug, PartialEq, Eq, Structural)]
pub enum Error {
    /// The input ended before the value was complete.
    UnexpectedEof,
    /// An address started with a byte other than 4 or 6.
    InvalidAddressFamily,
    /// The 16 bytes of the magic sequence did not match.
    MagicMismatch,
    /// The first byte of a message is not the id of a known message.
    UnknownMessageId,
    /// The top three bits of a frame header name no reliability class.
    InvalidReliability,
    /// A frame announced a content length of zero.
    EmptyFrame,
    /// A receipt record has a type other than single (1) or range (0).
    InvalidRecordType,
    /// The first byte of a connected datagram lacks the datagram flag.
    MissingDatagramFlag,
    /// A fragment announced more fragments than a message may be split into.
    TooManySplits,
    /// A fragment announced another fragment count than the one stored for its split id.
    SplitCountMismatch,
    /// A datagram carried more frames than allowed.
    TooManyFrames,
}

// ---------------------------------------------------------------------------
// Integer layouts
// ---------------------------------------------------------------------------

/// The `n` low bytes of `v`, most significant first.
pub open spec fn be(v: nat, n: nat) -> Seq<u8>
    decreases n,
{
    if n == 0 {
        Seq::empty()
    } else {
        be(v / 256, (n - 1) as nat).push((v % 256) as u8)
    }
}

/// The number whose big-endian digits in base 256 are `s`.
pub open spec fn from_be(s: Seq<u8>) -> nat
    decreases s.len(),
{
    if s.len() == 0 {
        0
    } else {
        from_be(s.drop_last()) * 256 + s.last() as nat
    }
}

/// The `n` low bytes of `v`, least significant first.
pub open spec fn le(v: nat, n: nat) -> Seq<u8>
    decreases n,
{
    if n == 0 {
        Seq::empty()
    } else {
        seq![(v % 256) as u8] + le(v / 256, (n - 1) as nat)
    }
}

/// The number whose little-endian digits in base 256 are `s`.
pub open spec fn from_le(s: Seq<u8>) -> nat
    decreases s.len(),
{
    if s.len() == 0 {
        0
    } else {
        s[0] as nat + 256 * from_le(s.drop_first())
    }
}

/// `v` needs no more than `n` bytes.
pub open spec fn fits(v: nat, n: nat) -> bool
    decreases n,
{
    if n == 0 {
        v == 0
    } else {
        fits(v / 256, (n - 1) as nat)
    }
}

/// The unsigned 64-bit number with the bit pattern of `v` in two's complement.
pub open spec fn unsigned64(v: i64) -> nat {
    if v < 0 {
        (v + 0x1_0000_0000_0000_0000) as nat
    } else {
        v as nat
    }
}

/// The signed 64-bit number with the bit pattern of `u` in two's complement.
pub open spec fn signed64(u: nat) -> i64 {
    if u >= 0x8000_0000_0000_0000 {
        (u - 0x1_0000_0000_0000_0000) as i64
    } else {
        u as i64
    }
}

/// Reading back what `be` wrote gives the number, and `be` writes `n` bytes.
pub proof fn lemma_be_roundtrip(v: nat, n: nat)
    requires
        fits(v, n),
    ensures
        be(v, n).len() == n,
        from_be(be(v, n)) == v,
    decreases n,
{
    if n > 0 {
        lemma_be_roundtrip(v / 256, (n - 1) as nat);
        assert(be(v, n).drop_last() =~= be(v / 256, (n - 1) as nat));
    }
}

/// Reading back what `le` wrote gives the number, and `le` writes `n` bytes.
pub proof fn lemma_le_roundtrip(v: nat, n: nat)
    requires
        fits(v, n),
    ensures
        le(v, n).len() == n,
        from_le(le(v, n)) == v,
    decreases n,
{
    if n > 0 {
        lemma_le_roundtrip(v / 256, (n - 1) as nat);
        assert(le(v, n).drop_first() =~= le(v / 256, (n - 1) as nat));
    }
}

/// `be` always writes `n` bytes.
pub proof fn lemma_be_len(v: nat, n: nat)
    ensures
        be(v, n).len() == n,
    decreases n,
{
    if n > 0 {
        lemma_be_len(v / 256, (n - 1) as nat);
    }
}

/// `le` always writes `n` bytes.
pub proof fn lemma_le_len(v: nat, n: nat)
    ensures
        le(v, n).len() == n,
    decreases n,
{
    if n > 0 {
        lemma_le_len(v / 256, (n - 1) as nat);
    }
}

/// Every value of the fixed-width types fits its width.
pub proof fn lemma_fits_widths()
    ensures
        forall|v: u8| fits(v as nat, 1),
        forall|v: u16| fits(v as nat, 2),
        forall|v: u32| v <= 0xff_ffff ==> fits(v as nat, 3),
        forall|v: u32| fits(v as nat, 4),
        forall|v: u64| fits(v as nat, 8),
        forall|v: i64| fits(unsigned64(v), 8),
        forall|v: u128| fits(v as nat, 16),
{
    reveal_with_fuel(fits, 17);
}

/// The two's complement pattern of a signed number reads back as that number.
pub proof fn lemma_signed_roundtrip(v: i64)
    ensures
        signed64(unsigned64(v)) == v,
{
}

// ---------------------------------------------------------------------------
// Output buffer
// ---------------------------------------------------------------------------

/// `bytes::BytesMut`, the growable byte buffer. Nothing is known of its
/// inside; what it holds is spoken of through `contents`.
#[verifier::external_type_specification]
#[verifier::external_body]
pub struct ExBytesMut(BytesMut);

/// `bytes::Bytes`, the immutable byte string. Nothing is known of its
/// inside; what it holds is spoken of through `frozen`.
#[verifier::external_type_specification]
#[verifier::external_body]
pub struct ExBytes(Bytes);

/// The bytes that a buffer holds, first to last.
pub uninterp spec fn contents(buf: BytesMut) -> Seq<u8>;

/// The bytes of an immutable byte string, first to last.
pub uninterp spec fn frozen(data: Bytes) -> Seq<u8>;

/// `BytesMut::with_capacity`: a buffer that holds nothing, whatever room it
/// was made with. It panics where the room asked for is more than an
/// allocation can be; that is kept out by a bound far below it.
#[verifier::external_body]
pub(crate) fn buffer_with_capacity(capacity: usize) -> (buf: BytesMut)
    requires
        capacity <= 0x1_0000,
    ensures
        contents(buf) == Seq::<u8>::empty(),
{
    BytesMut::with_capacity(capacity)
}

/// `BytesMut::len`: the number of bytes held.
#[verifier::external_body]
pub(crate) fn buffer_len(buf: &BytesMut) -> (n: usize)
    ensures
        n == contents(*buf).len(),
{
    buf.len()
}

/// `BytesMut::clear`: afterwards the buffer holds nothing.
#[verifier::external_body]
pub(crate) fn buffer_clear(buf: &mut BytesMut)
    ensures
        contents(*final(buf)) == Seq::<u8>::empty(),
{
    buf.clear()
}

/// `BytesMut::to_vec` (through its deref to a slice): a copy of the bytes held.
#[verifier::external_body]
pub(crate) fn buffer_to_vec(buf: &BytesMut) -> (v: Vec<u8>)
    ensures
        v@ == contents(*buf),
{
    buf.to_vec()
}

/// `Bytes::copy_from_slice`: an immutable byte string with the bytes of the slice.
#[verifier::external_body]
pub(crate) fn freeze(data: &[u8]) -> (out: Bytes)
    ensures
        frozen(out) == data@,
{
    Bytes::copy_from_slice(data)
}

/// `Bytes::to_vec` (through its deref to a slice): a copy of the bytes.
#[verifier::external_body]
pub(crate) fn thaw(data: &Bytes) -> (v: Vec<u8>)
    ensures
        v@ == frozen(*data),
{
    data.to_vec()
}

/// `BufMut::put_slice` on a `BytesMut`: appends the bytes of the slice.
#[verifier::external_body]
pub(crate) fn put_slice(buf: &mut BytesMut, src: &[u8])
    ensures
        contents(*final(buf)) == contents(*old(buf)) + src@,
{
    buf.put_slice(src)
}

/// `BufMut::put_u8` on a `BytesMut`: appends one byte.
#[verifier::external_body]
pub(crate) fn put_u8(buf: &mut BytesMut, v: u8)
    ensures
        contents(*final(buf)) == contents(*old(buf)).push(v),
{
    buf.put_u8(v)
}

/// `BufMut::put_u16` on a `BytesMut`: appends the two bytes of `v`, most
/// significant first.
#[verifier::external_body]
pub(crate) fn put_u16(buf: &mut BytesMut, v: u16)
    ensures
        contents(*final(buf)) == contents(*old(buf)) + be(v as nat, 2),
{
    buf.put_u16(v)
}

/// `BufMut::put_uint_le` with a width of 3 on a `BytesMut`: appends the three
/// low bytes of `v`, least significant first.
#[verifier::external_body]
pub(crate) fn put_u24_le(buf: &mut BytesMut, v: u32)
    ensures
        contents(*final(buf)) == contents(*old(buf)) + le(v as nat, 3),
{
    buf.put_uint_le(v as u64, 3)
}

/// `BufMut::put_u32` on a `BytesMut`: appends the four bytes of `v`, most
/// significant first.
#[verifier::external_body]
pub(crate) fn put_u32(buf: &mut BytesMut, v: u32)
    ensures
        contents(*final(buf)) == contents(*old(buf)) + be(v as nat, 4),
{
    buf.put_u32(v)
}

/// `BufMut::put_i64` on a `BytesMut`: appends the eight bytes of the two's
/// complement pattern of `v`, most significant first.
#[verifier::external_body]
pub(crate) fn put_i64(buf: &mut BytesMut, v: i64)
    ensures
        contents(*final(buf)) == contents(*old(buf)) + be(unsigned64(v), 8),
{
    buf.put_i64(v)
}

/// `BufMut::put_u128` on a `BytesMut`: appends the sixteen bytes of `v`, most
/// significant first.
#[verifier::external_body]
pub(crate) fn put_u128(buf: &mut BytesMut, v: u128)
    ensures
        contents(*final(buf)) == contents(*old(buf)) + be(v as nat, 16),
{
    buf.put_u128(v)
}

// ---------------------------------------------------------------------------
// Input
// ---------------------------------------------------------------------------

/// `ByteOrder::read_u16` of `BigEndian`: the number in the first two bytes,
/// most significant first. It panics on a shorter slice.
#[verifier::external_body]
pub(crate) fn read_u16_be(src: &[u8]) -> (v: u16)
    requires
        src@.len() >= 2,
    ensures
        v == from_be(src@.subrange(0, 2)),
{
    BigEndian::read_u16(src)
}

/// `ByteOrder::read_u24` of `LittleEndian`: the number in the first three
/// bytes, least significant first. It panics on a shorter slice.
#[verifier::external_body]
pub(crate) fn read_u24_le(src: &[u8]) -> (v: u32)
    requires
        src@.len() >= 3,
    ensures
        v == from_le(src@.subrange(0, 3)),
        v <= 0xff_ffff,
{
    LittleEndian::read_u24(src)
}

/// `ByteOrder::read_u32` of `BigEndian`: the number in the first four bytes,
/// most significant first. It panics on a shorter slice.
#[verifier::external_body]
pub(crate) fn read_u32_be(src: &[u8]) -> (v: u32)
    requires
        src@.len() >= 4,
    ensures
        v == from_be(src@.subrange(0, 4)),
{
    BigEndian::read_u32(src)
}

/// `ByteOrder::read_i64` of `BigEndian`: the signed number whose two's
/// complement pattern is in the first eight bytes, most significant first. It
/// panics on a shorter slice.
#[verifier::external_body]
pub(crate) fn read_i64_be(src: &[u8]) -> (v: i64)
    requires
        src@.len() >= 8,
    ensures
        v == signed64(from_be(src@.subrange(0, 8))),
{
    BigEndian::read_i64(src)
}

/// `ByteOrder::read_u128` of `BigEndian`: the number in the first sixteen
/// bytes, most significant first. It panics on a shorter slice.
#[verifier::external_body]
pub(crate) fn read_u128_be(src: &[u8]) -> (v: u128)
    requires
        src@.len() >= 16,
    ensures
        v == from_be(src@.subrange(0, 16)),
{
    BigEndian::read_u128(src)
}

/// `n` bytes are available in `s` from position `at`.
pub open spec fn avail(s: Seq<u8>, at: int, n: int) -> bool {
    0 <= at && 0 <= n && at + n <= s.len()
}

/// The byte at `at`.
pub open spec fn u8_at(s: Seq<u8>, at: int) -> u8 {
    s[at]
}

/// The big-endian 16-bit number at `at`.
pub open spec fn u16_at(s: Seq<u8>, at: int) -> u16 {
    from_be(s.subrange(at, at + 2)) as u16
}

/// The little-endian 24-bit number at `at`.
pub open spec fn u24_at(s: Seq<u8>, at: int) -> u32 {
    from_le(s.subrange(at, at + 3)) as u32
}

/// The big-endian 32-bit number at `at`.
pub open spec fn u32_at(s: Seq<u8>, at: int) -> u32 {
    from_be(s.subrange(at, at + 4)) as u32
}

/// The big-endian signed 64-bit number at `at`.
pub open spec fn i64_at(s: Seq<u8>, at: int) -> i64 {
    signed64(from_be(s.subrange(at, at + 8)))
}

/// The big-endian 128-bit number at `at`.
pub open spec fn u128_at(s: Seq<u8>, at: int) -> u128 {
    from_be(s.subrange(at, at + 16)) as u128
}

/// The truth value at `at`: any byte but zero is true.
pub open spec fn bool_at(s: Seq<u8>, at: int) -> bool {
    s[at] != 0
}

/// A cursor over a byte slice.
pub struct Reader<'a> {
    pub buf: &'a [u8],
    pub pos: usize,
}

impl<'a> Reader<'a> {
    /// The position lies within the input.
    pub open spec fn wf(&self) -> bool {
        self.pos <= self.buf@.len()
    }

    /// `self` is `before` moved forward by `n` bytes.
    pub open spec fn advanced(&self, before: &Reader<'a>, n: int) -> bool {
        &&& self.buf@ == before.buf@
        &&& self.pos == before.pos + n
        &&& self.wf()
    }

    /// A cursor at the start of `buf`.
    pub fn new(buf: &'a [u8]) -> (r: Self)
        ensures
            r.buf@ == buf@,
            r.pos == 0,
            r.wf(),
    {
        Reader { buf, pos: 0 }
    }

    /// The number of bytes not yet read.
    pub fn remaining(&self) -> (n: usize)
        requires
            self.wf(),
        ensures
            n == self.buf@.len() - self.pos,
    {
        self.buf.len() - self.pos
    }

    /// The next `n` bytes, or `UnexpectedEof` when fewer are left.
    pub fn take(&mut self, n: usize) -> (res: Result<&'a [u8], Error>)
        requires
            old(self).wf(),
        ensures
            final(self).buf@ == old(self).buf@,
            final(self).wf(),
            match res {
                Ok(out) => avail(old(self).buf@, old(self).pos as int, n as int)
                    && final(self).advanced(old(self), n as int)
                    && out@ == old(self).buf@.subrange(
                    old(self).pos as int,
                    old(self).pos + n,
                ),
                Err(e) => e == Error::UnexpectedEof && !avail(
                    old(self).buf@,
                    old(self).pos as int,
                    n as int,
                ) && final(self).pos == old(self).pos,
            },
    {
        if n > self.buf.len() - self.pos {
            return Err(Error::UnexpectedEof);
        }
        let out = slice_subrange(self.buf, self.pos, self.pos + n);
        self.pos = self.pos + n;
        Ok(out)
    }

    /// Everything that is left.
    pub fn rest(&mut self) -> (out: &'a [u8])
        requires
            old(self).wf(),
        ensures
            final(self).buf@ == old(self).buf@,
            final(self).pos == old(self).buf@.len(),
            final(self).wf(),
            out@ == old(self).buf@.subrange(old(self).pos as int, old(self).buf@.len() as int),
    {
        let out = slice_subrange(self.buf, self.pos, self.buf.len());
        self.pos = self.buf.len();
        out
    }

    /// Skips `n` bytes, or fails with `UnexpectedEof` when fewer are left.
    pub fn skip(&mut self, n: usize) -> (res: Result<(), Error>)
        requires
            old(self).wf(),
        ensures
            final(self).buf@ == old(self).buf@,
            final(self).wf(),
            match res {
                Ok(_) => avail(old(self).buf@, old(self).pos as int, n as int)
                    && final(self).advanced(old(self), n as int),
                Err(e) => e == Error::UnexpectedEof && !avail(
                    old(self).buf@,
                    old(self).pos as int,
                    n as int,
                ) && final(self).pos == old(self).pos,
            },
    {
        match self.take(n) {
            Ok(_) => Ok(()),
            Err(e) => Err(e),
        }
    }

    /// Reads one byte.
    pub fn read_u8(&mut self) -> (res: Result<u8, Error>)
        requires
            old(self).wf(),
        ensures
            final(self).buf@ == old(self).buf@,
            final(self).wf(),
            match res {
                Ok(v) => avail(old(self).buf@, old(self).pos as int, 1) && final(self).advanced(
                    old(self),
                    1,
                ) && v == u8_at(old(self).buf@, old(self).pos as int),
                Err(e) => e == Error::UnexpectedEof && !avail(old(self).buf@, old(self).pos as int, 1)
                    && final(self).pos == old(self).pos,
            },
    {
        if self.pos >= self.buf.len() {
            return Err(Error::UnexpectedEof);
        }
        let v: u8 = self.buf[self.pos];
        self.pos = self.pos + 1;
        Ok(v)
    }

    /// Reads one byte as a truth value: any byte but zero is true.
    pub fn read_bool(&mut self) -> (res: Result<bool, Error>)
        requires
            old(self).wf(),
        ensures
            final(self).buf@ == old(self).buf@,
            final(self).wf(),
            match res {
                Ok(v) => avail(old(self).buf@, old(self).pos as int, 1) && final(self).advanced(
                    old(self),
                    1,
                ) && v == bool_at(old(self).buf@, old(self).pos as int),
                Err(e) => e == Error::UnexpectedEof && !avail(old(self).buf@, old(self).pos as int, 1)
                    && final(self).pos == old(self).pos,
            },
    {
        match self.read_u8() {
            Ok(v) => Ok(v != 0),
            Err(e) => Err(e),
        }
    }

    /// Reads a big-endian 16-bit number.
    pub fn read_u16(&mut self) -> (res: Result<u16, Error>)
        requires
            old(self).wf(),
        ensures
            final(self).buf@ == old(self).buf@,
            final(self).wf(),
            match res {
                Ok(v) => avail(old(self).buf@, old(self).pos as int, 2) && final(self).advanced(
                    old(self),
                    2,
                ) && v == u16_at(old(self).buf@, old(self).pos as int),
                Err(e) => e == Error::UnexpectedEof && !avail(old(self).buf@, old(self).pos as int, 2)
                    && final(self).pos == old(self).pos,
            },
    {
        match self.take(2) {
            Ok(src) => {
                assert(src@.subrange(0, 2) =~= src@);
                Ok(read_u16_be(src))
            },
            Err(e) => Err(e),
        }
    }

    /// Reads a little-endian 24-bit number.
    pub fn read_u24(&mut self) -> (res: Result<u32, Error>)
        requires
            old(self).wf(),
        ensures
            final(self).buf@ == old(self).buf@,
            final(self).wf(),
            match res {
                Ok(v) => avail(old(self).buf@, old(self).pos as int, 3) && final(self).advanced(
                    old(self),
                    3,
                ) && v == u24_at(old(self).buf@, old(self).pos as int) && v <= 0xff_ffff,
                Err(e) => e == Error::UnexpectedEof && !avail(old(self).buf@, old(self).pos as int, 3)
                    && final(self).pos == old(self).pos,
            },
    {
        match self.take(3) {
            Ok(src) => {
                assert(src@.subrange(0, 3) =~= src@);
                Ok(read_u24_le(src))
            },
            Err(e) => Err(e),
        }
    }

    /// Reads a big-endian 32-bit number.
    pub fn read_u32(&mut self) -> (res: Result<u32, Error>)
        requires
            old(self).wf(),
        ensures
            final(self).buf@ == old(self).buf@,
            final(self).wf(),
            match res {
                Ok(v) => avail(old(self).buf@, old(self).pos as int, 4) && final(self).advanced(
                    old(self),
                    4,
                ) && v == u32_at(old(self).buf@, old(self).pos as int),
                Err(e) => e == Error::UnexpectedEof && !avail(old(self).buf@, old(self).pos as int, 4)
                    && final(self).pos == old(self).pos,
            },
    {
        match self.take(4) {
            Ok(src) => {
                assert(src@.subrange(0, 4) =~= src@);
                Ok(read_u32_be(src))
            },
            Err(e) => Err(e),
        }
    }

    /// Reads a big-endian signed 64-bit number.
    pub fn read_i64(&mut self) -> (res: Result<i64, Error>)
        requires
            old(self).wf(),
        ensures
            final(self).buf@ == old(self).buf@,
            final(self).wf(),
            match res {
                Ok(v) => avail(old(self).buf@, old(self).pos as int, 8) && final(self).advanced(
                    old(self),
                    8,
                ) && v == i64_at(old(self).buf@, old(self).pos as int),
                Err(e) => e == Error::UnexpectedEof && !avail(old(self).buf@, old(self).pos as int, 8)
                    && final(self).pos == old(self).pos,
            },
    {
        match self.take(8) {
            Ok(src) => {
                assert(src@.subrange(0, 8) =~= src@);
                Ok(read_i64_be(src))
            },
            Err(e) => Err(e),
        }
    }

    /// Reads a big-endian 128-bit number.
    pub fn read_u128(&mut self) -> (res: Result<u128, Error>)
        requires
            old(self).wf(),
        ensures
            final(self).buf@ == old(self).buf@,
            final(self).wf(),
            match res {
                Ok(v) => avail(old(self).buf@, old(self).pos as int, 16) && final(self).advanced(
                    old(self),
                    16,
                ) && v == u128_at(old(self).buf@, old(self).pos as int),
                Err(e) => e == Error::UnexpectedEof && !avail(
                    old(self).buf@,
                    old(self).pos as int,
                    16,
                ) && final(self).pos == old(self).pos,
            },
    {
        match self.take(16) {
            Ok(src) => {
                assert(src@.subrange(0, 16) =~= src@);
                Ok(read_u128_be(src))
            },
            Err(e) => Err(e),
        }
    }
}


/// What an executable parser returned agrees with what the grammar says of the
/// input at the position where the reader stood: the same value and the
/// position after it, or the same error.
pub open spec fn parsed<T>(res: Result<T, Error>, expected: Result<(T, int), Error>, pos: int) -> bool {
    match expected {
        Ok((value, next)) => res == Ok::<T, Error>(value) && pos == next,
        Err(e) => res == Err::<T, Error>(e),
    }
}

// ---------------------------------------------------------------------------
// Socket addresses
// ---------------------------------------------------------------------------

/// The address of a peer: an IPv4 or IPv6 address, as the number that its
/// bytes spell most significant first, and a port.
#[derive(Clone, Copy, Debug, PartialEq, Eq, Hash, Structural)]
#[allow(inconsistent_fields)]
pub enum UDPAddress {
    V4 { ip: u32, port: u16 },
    V6 { ip: u128, port: u16 },
}

impl UDPAddress {
    /// The bytes of the address on the wire. IPv4: a 4, the four address
    /// bytes, the port. IPv6: a 6, the family 23 in little-endian, the port,
    /// four zero bytes, the sixteen address bytes, four zero bytes.
    pub open spec fn wire(self) -> Seq<u8> {
        match self {
            UDPAddress::V4 { ip, port } => seq![4u8] + be(ip as nat, 4) + be(port as nat, 2),
            UDPAddress::V6 { ip, port } => seq![6u8, 23u8, 0u8] + be(port as nat, 2) + be(0, 4)
                + be(ip as nat, 16) + be(0, 4),
        }
    }

    /// The address that starts at `at`, with the position after it. The
    /// family, flow and scope fields of an IPv6 address are skipped unread.
    pub open spec fn parse(s: Seq<u8>, at: int) -> Result<(UDPAddress, int), Error> {
        if !avail(s, at, 1) {
            Err(Error::UnexpectedEof)
        } else if s[at] == 4 {
            if avail(s, at + 1, 6) {
                Ok((UDPAddress::V4 { ip: u32_at(s, at + 1), port: u16_at(s, at + 5) }, at + 7))
            } else {
                Err(Error::UnexpectedEof)
            }
        } else if s[at] == 6 {
            if avail(s, at + 1, 28) {
                Ok((UDPAddress::V6 { ip: u128_at(s, at + 9), port: u16_at(s, at + 3) }, at + 29))
            } else {
                Err(Error::UnexpectedEof)
            }
        } else {
            Err(Error::InvalidAddressFamily)
        }
    }

    /// The port of the address.
    pub fn port(&self) -> (p: u16)
        ensures
            p == match *self {
                UDPAddress::V4 { ip, port } => port,
                UDPAddress::V6 { ip, port } => port,
            },
    {
        match *self {
            UDPAddress::V4 { ip, port } => port,
            UDPAddress::V6 { ip, port } => port,
        }
    }

    /// Appends the address to `buf`.
    pub fn serialize(&self, buf: &mut BytesMut)
        ensures
            contents(*final(buf)) == contents(*old(buf)) + self.wire(),
    {
        match *self {
            UDPAddress::V4 { ip, port } => {
                put_u8(buf, 4);
                put_u32(buf, ip);
                put_u16(buf, port);
                assert(contents(*buf) =~= contents(*old(buf)) + self.wire());
            },
            UDPAddress::V6 { ip, port } => {
                put_u8(buf, 6);
                put_u8(buf, 23);
                put_u8(buf, 0);
                put_u16(buf, port);
                put_u32(buf, 0);
                put_u128(buf, ip);
                put_u32(buf, 0);
                assert(contents(*buf) =~= contents(*old(buf)) + self.wire());
            },
        }
    }

    /// Reads an address.
    pub fn deserialize(r: &mut Reader) -> (res: Result<UDPAddress, Error>)
        requires
            old(r).wf(),
        ensures
            final(r).buf@ == old(r).buf@,
            final(r).wf(),
            parsed(res, UDPAddress::parse(old(r).buf@, old(r).pos as int), final(r).pos as int),
    {
        let family: u8 = r.read_u8()?;
        if family == 4 {
            let ip: u32 = r.read_u32()?;
            let port: u16 = r.read_u16()?;
            Ok(UDPAddress::V4 { ip, port })
        } else if family == 6 {
            r.skip(2)?;
            let port: u16 = r.read_u16()?;
            r.skip(4)?;
            let ip: u128 = r.read_u128()?;
            r.skip(4)?;
            Ok(UDPAddress::V6 { ip, port })
        } else {
            Err(Error::InvalidAddressFamily)
        }
    }
}

/// What is written comes back: an address parses from its own bytes, whatever
/// follows them.
pub proof fn lemma_address_roundtrip(a: UDPAddress, before: Seq<u8>, after: Seq<u8>)
    ensures
        UDPAddress::parse(before + a.wire() + after, before.len() as int) == Ok::<
            (UDPAddress, int),
            Error,
        >((a, (before.len() + a.wire().len()) as int)),
{
    let s = before + a.wire() + after;
    let at = before.len() as int;
    lemma_fits_widths();
    match a {
        UDPAddress::V4 { ip, port } => {
            lemma_be_roundtrip(ip as nat, 4);
            lemma_be_roundtrip(port as nat, 2);
            assert(s.subrange(at + 1, at + 5) =~= be(ip as nat, 4));
            assert(s.subrange(at + 5, at + 7) =~= be(port as nat, 2));
        },
        UDPAddress::V6 { ip, port } => {
            lemma_be_roundtrip(ip as nat, 16);
            lemma_be_roundtrip(port as nat, 2);
            lemma_be_len(0, 4);
            assert(s.subrange(at + 3, at + 5) =~= be(port as nat, 2));
            assert(s.subrange(at + 9, at + 25) =~= be(ip as nat, 16));
        },
    }
}

/// The placeholder of a system address list: 255.255.255.255:19132.
pub open spec fn internal_address() -> UDPAddress {
    UDPAddress::V4 { ip: INTERNAL_ADDRESS_IP, port: INTERNAL_ADDRESS_PORT }
}

/// The list of system addresses that two of the messages carry. It holds no
/// information: `SYSTEM_ADDRESS_COUNT` placeholders are written, and up to as
/// many addresses are read and dropped.
#[derive(Clone, Copy, Debug, PartialEq, Eq, Structural)]
pub struct SystemAddresses;

impl SystemAddresses {
    /// `n` placeholders in a row.
    pub open spec fn placeholders(n: nat) -> Seq<u8>
        decreases n,
    {
        if n == 0 {
            Seq::empty()
        } else {
            Self::placeholders((n - 1) as nat) + internal_address().wire()
        }
    }

    /// The bytes of the list on the wire: `SYSTEM_ADDRESS_COUNT` placeholders.
    pub open spec fn wire() -> Seq<u8> {
        Self::placeholders(SYSTEM_ADDRESS_COUNT as nat)
    }

    /// The position after the list that starts at `at`, of which up to `n`
    /// addresses are still to be read: the list ends early where exactly 16
    /// bytes are left, which are the two timestamps that follow it.
    pub open spec fn parse(s: Seq<u8>, at: int, n: nat) -> Result<int, Error>
        decreases n,
    {
        if n == 0 || s.len() - at == 16 {
            Ok(at)
        } else {
            match UDPAddress::parse(s, at) {
                Ok((_, next)) => Self::parse(s, next, (n - 1) as nat),
                Err(e) => Err(e),
            }
        }
    }

    /// Appends the list to `buf`.
    pub fn serialize(&self, buf: &mut BytesMut)
        ensures
            contents(*final(buf)) == contents(*old(buf)) + Self::wire(),
    {
        let internal = UDPAddress::V4 { ip: INTERNAL_ADDRESS_IP, port: INTERNAL_ADDRESS_PORT };
        let mut i: usize = 0;
        while i < SYSTEM_ADDRESS_COUNT
            invariant
                i <= SYSTEM_ADDRESS_COUNT,
                internal == internal_address(),
                contents(*buf) == contents(*old(buf)) + Self::placeholders(i as nat),
            decreases SYSTEM_ADDRESS_COUNT - i,
        {
            internal.serialize(buf);
            i = i + 1;
            assert(contents(*buf) =~= contents(*old(buf)) + Self::placeholders(i as nat));
        }
    }

    /// Reads the list.
    pub fn deserialize(r: &mut Reader) -> (res: Result<SystemAddresses, Error>)
        requires
            old(r).wf(),
        ensures
            final(r).buf@ == old(r).buf@,
            final(r).wf(),
            match Self::parse(old(r).buf@, old(r).pos as int, SYSTEM_ADDRESS_COUNT as nat) {
                Ok(next) => res == Ok::<SystemAddresses, Error>(SystemAddresses) && final(r).pos
                    == next,
                Err(e) => res == Err::<SystemAddresses, Error>(e),
            },
    {
        let mut i: usize = 0;
        while i < SYSTEM_ADDRESS_COUNT
            invariant
                i <= SYSTEM_ADDRESS_COUNT,
                r.wf(),
                r.buf@ == old(r).buf@,
                Self::parse(old(r).buf@, old(r).pos as int, SYSTEM_ADDRESS_COUNT as nat) == Self::parse(
                    r.buf@,
                    r.pos as int,
                    (SYSTEM_ADDRESS_COUNT - i) as nat,
                ),
            decreases SYSTEM_ADDRESS_COUNT - i,
        {
            if r.remaining() == 16 {
                return Ok(SystemAddresses);
            }
            match UDPAddress::deserialize(r) {
                Ok(_) => {},
                Err(e) => {
                    return Err(e);
                },
            }
            i = i + 1;
        }
        Ok(SystemAddresses)
    }
}

// ---------------------------------------------------------------------------
// Magic
// ---------------------------------------------------------------------------

/// The 16 bytes found in every unconnected message.
pub open spec fn magic() -> Seq<u8> {
    seq![
        0x00u8, 0xffu8, 0xffu8, 0x00u8, 0xfeu8, 0xfeu8, 0xfeu8, 0xfeu8, 0xfdu8, 0xfdu8, 0xfdu8,
        0xfdu8, 0x12u8, 0x34u8, 0x56u8, 0x78u8,
    ]
}

/// The magic sequence as a field of a message. It holds no information.
#[derive(Clone, Copy, Debug, PartialEq, Eq, Structural)]
pub struct Magic;

impl Magic {
    /// The position after the magic sequence that starts at `at`.
    pub open spec fn parse(s: Seq<u8>, at: int) -> Result<int, Error> {
        if !avail(s, at, 16) {
            Err(Error::UnexpectedEof)
        } else if s.subrange(at, at + 16) != magic() {
            Err(Error::MagicMismatch)
        } else {
            Ok(at + 16)
        }
    }

    /// Appends the 16 bytes to `buf`.
    pub fn serialize(&self, buf: &mut BytesMut)
        ensures
            contents(*final(buf)) == contents(*old(buf)) + magic(),
    {
        let sequence: [u8; 16] = UNCONNECTED_MESSAGE_SEQUENCE;
        assert(sequence@ =~= magic());
        put_slice(buf, vstd::array::array_as_slice(&sequence));
    }

    /// Reads 16 bytes and fails unless they are the magic sequence.
    pub fn deserialize(r: &mut Reader) -> (res: Result<Magic, Error>)
        requires
            old(r).wf(),
        ensures
            final(r).buf@ == old(r).buf@,
            final(r).wf(),
            match Self::parse(old(r).buf@, old(r).pos as int) {
                Ok(next) => res == Ok::<Magic, Error>(Magic) && final(r).pos == next,
                Err(e) => res == Err::<Magic, Error>(e),
            },
    {
        let found = r.take(16)?;
        let sequence: [u8; 16] = UNCONNECTED_MESSAGE_SEQUENCE;
        assert(sequence@ =~= magic());
        let mut i: usize = 0;
        while i < 16
            invariant
                i <= 16,
                found@.len() == 16,
                sequence@ == magic(),
                r.wf(),
                r.buf@ == old(r).buf@,
                r.pos == old(r).pos + 16,
                avail(old(r).buf@, old(r).pos as int, 16),
                found@ == old(r).buf@.subrange(old(r).pos as int, old(r).pos + 16),
                forall|j: int| 0 <= j < i ==> found@[j] == magic()[j],
            decreases 16 - i,
        {
            if found[i] != sequence[i] {
                assert(found@[i as int] != magic()[i as int]);
                return Err(Error::MagicMismatch);
            }
            i = i + 1;
        }
        assert(found@ =~= magic());
        Ok(Magic)
    }
}


/// The magic sequence parses from its own 16 bytes and from no other 16
/// bytes, whatever stands before and after them.
pub proof fn lemma_magic_roundtrip(before: Seq<u8>, sixteen: Seq<u8>, after: Seq<u8>)
    requires
        sixteen.len() == 16,
    ensures
        Magic::parse(before + sixteen + after, before.len() as int) == if sixteen == magic() {
            Ok::<int, Error>(before.len() as int + 16)
        } else {
            Err::<int, Error>(Error::MagicMismatch)
        },
{
    let s = before + sixteen + after;
    assert(s.subrange(before.len() as int, before.len() as int + 16) =~= sixteen);
}

} // verus!
