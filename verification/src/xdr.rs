//! The wire codec's primitives: fixed-width big-endian integers, booleans and
//! length-prefixed opaque byte strings padded to four-byte boundaries.
//!
//! Every value has one canonical encoding, given by a spec function, and every
//! decoder is specified by a spec function from the input and a position to
//! either the value and the position after it or a [`ProtocolDecodeError`].

use byteorder::{BigEndian, ByteOrder};
use vstd::prelude::*;
use vstd::slice::slice_subrange;

verus! {

/// Why a byte stream could not be read as the record that was asked for.
#[derive(Clone, Copy, Debug, PartialEq, Eq, Structural)]
pub enum ProtocolDecodeError {
    /// The stream ended before the value did.
    Truncated,
    /// An enumerated field held this number, which names no variant.
    UnknownDiscriminant(u32),
}

/// What a spec decoder yields: the value and the position just after it.
pub type Decoded<V> = Result<(V, int), ProtocolDecodeError>;

/// The executable decoder's result `r` is the one the spec decoder `m` prescribes.
pub open spec fn decoded<T: View>(
    r: Result<(T, usize), ProtocolDecodeError>,
    m: Decoded<T::V>,
) -> bool {
    match m {
        Ok((v, end)) => r matches Ok((x, e)) && x@ == v && e == end,
        Err(err) => r matches Err(e) && e == err,
    }
}

/// `enc` stands in `s` at position `at`.
#[verifier::opaque]
pub open spec fn holds_at(s: Seq<u8>, at: int, enc: Seq<u8>) -> bool {
    &&& 0 <= at
    &&& at + enc.len() <= s.len()
    &&& s.subrange(at, at + enc.len()) == enc
}

/// Every sequence stands at its own start.
pub proof fn lemma_holds_at_start(s: Seq<u8>)
    ensures
        holds_at(s, 0, s),
{
    reveal(holds_at);
    assert(s.subrange(0, s.len() as int) =~= s);
}

/// Where a concatenation stands, its two halves stand one after the other.
pub proof fn lemma_holds_at_split(s: Seq<u8>, at: int, a: Seq<u8>, b: Seq<u8>)
    requires
        holds_at(s, at, a + b),
    ensures
        holds_at(s, at, a),
        holds_at(s, at + a.len(), b),
{
    reveal(holds_at);
    let whole = s.subrange(at, at + (a + b).len());
    assert(s.subrange(at, at + a.len()) =~= whole.subrange(0, a.len() as int));
    assert((a + b).subrange(0, a.len() as int) =~= a);
    assert(s.subrange(at + a.len(), at + a.len() + b.len()) =~= whole.subrange(
        a.len() as int,
        (a + b).len() as int,
    ));
    assert((a + b).subrange(a.len() as int, (a + b).len() as int) =~= b);
}

// ---------------------------------------------------------------------------
// Big-endian integers
// ---------------------------------------------------------------------------

/// Byte `k` of `n`, where byte 0 is the least significant.
#[verifier::opaque]
pub open spec fn u32_byte(n: u32, k: int) -> u8 {
    if k == 0 {
        (n % 0x100) as u8
    } else if k == 1 {
        (n / 0x100 % 0x100) as u8
    } else if k == 2 {
        (n / 0x1_0000 % 0x100) as u8
    } else {
        (n / 0x100_0000 % 0x100) as u8
    }
}

/// The number with the bytes `b3` (most significant), `b2`, `b1` and `b0`.
#[verifier::opaque]
pub open spec fn u32_of_bytes(b3: u8, b2: u8, b1: u8, b0: u8) -> u32 {
    (b3 * 0x100_0000 + b2 * 0x1_0000 + b1 * 0x100 + b0) as u32
}

/// The four bytes of `n`, most significant first.
pub open spec fn u32_to_be(n: u32) -> Seq<u8> {
    seq![u32_byte(n, 3), u32_byte(n, 2), u32_byte(n, 1), u32_byte(n, 0)]
}

/// The number whose big-endian bytes are the first four of `b`.
pub open spec fn u32_from_be(b: Seq<u8>) -> u32
    recommends
        b.len() >= 4,
{
    u32_of_bytes(b[0], b[1], b[2], b[3])
}

/// The two's-complement bit pattern of `n`, read as an unsigned number.
#[verifier::opaque]
pub open spec fn i32_bits(n: i32) -> u32 {
    if n < 0 {
        (n + 0x1_0000_0000) as u32
    } else {
        n as u32
    }
}

/// The signed number whose two's-complement bit pattern is `u`.
#[verifier::opaque]
pub open spec fn i32_of_bits(u: u32) -> i32 {
    if u >= 0x8000_0000 {
        (u - 0x1_0000_0000) as i32
    } else {
        u as i32
    }
}

/// The four bytes of `n` in two's complement, most significant first.
pub open spec fn i32_to_be(n: i32) -> Seq<u8> {
    u32_to_be(i32_bits(n))
}

/// The signed number whose big-endian two's-complement bytes are the first four of `b`.
pub open spec fn i32_from_be(b: Seq<u8>) -> i32
    recommends
        b.len() >= 4,
{
    i32_of_bits(u32_from_be(b))
}

/// The more significant half of `n`.
#[verifier::opaque]
pub open spec fn u64_high(n: u64) -> u32 {
    (n / 0x1_0000_0000) as u32
}

/// The less significant half of `n`.
#[verifier::opaque]
pub open spec fn u64_low(n: u64) -> u32 {
    (n % 0x1_0000_0000) as u32
}

/// The number with the halves `high` and `low`.
#[verifier::opaque]
pub open spec fn u64_of_halves(high: u32, low: u32) -> u64 {
    (high * 0x1_0000_0000 + low) as u64
}

/// The eight bytes of `n`, most significant first.
pub open spec fn u64_to_be(n: u64) -> Seq<u8> {
    u32_to_be(u64_high(n)) + u32_to_be(u64_low(n))
}

/// The number whose big-endian bytes are the first eight of `b`.
pub open spec fn u64_from_be(b: Seq<u8>) -> u64
    recommends
        b.len() >= 8,
{
    u64_of_halves(u32_from_be(b.subrange(0, 4)), u32_from_be(b.subrange(4, 8)))
}

pub proof fn lemma_u32_be_roundtrip(n: u32)
    ensures
        u32_to_be(n).len() == 4,
        u32_from_be(u32_to_be(n)) == n,
{
    reveal(u32_byte);
    reveal(u32_of_bytes);
}

pub proof fn lemma_i32_be_roundtrip(n: i32)
    ensures
        i32_to_be(n).len() == 4,
        i32_from_be(i32_to_be(n)) == n,
{
    lemma_u32_be_roundtrip(i32_bits(n));
    reveal(i32_bits);
    reveal(i32_of_bits);
}

pub proof fn lemma_u64_be_roundtrip(n: u64)
    ensures
        u64_to_be(n).len() == 8,
        u64_from_be(u64_to_be(n)) == n,
{
    let high = u64_high(n);
    let low = u64_low(n);
    lemma_u32_be_roundtrip(high);
    lemma_u32_be_roundtrip(low);
    let b = u64_to_be(n);
    assert(b.subrange(0, 4) =~= u32_to_be(high));
    assert(b.subrange(4, 8) =~= u32_to_be(low));
    reveal(u64_high);
    reveal(u64_low);
    reveal(u64_of_halves);
}

/// byteorder's `BigEndian::read_u32`: the first four bytes of `buf` as a
/// big-endian number. It panics on a shorter buffer, which `requires` leaves out.
#[verifier::external_body]
fn be_read_u32(buf: &[u8]) -> (n: u32)
    requires
        buf@.len() >= 4,
    ensures
        n == u32_from_be(buf@),
{
    BigEndian::read_u32(buf)
}

/// byteorder's `BigEndian::read_i32`: the first four bytes of `buf` as a
/// big-endian two's-complement number. It panics on a shorter buffer.
#[verifier::external_body]
fn be_read_i32(buf: &[u8]) -> (n: i32)
    requires
        buf@.len() >= 4,
    ensures
        n == i32_from_be(buf@),
{
    BigEndian::read_i32(buf)
}

/// byteorder's `BigEndian::read_u64`: the first eight bytes of `buf` as a
/// big-endian number. It panics on a shorter buffer.
#[verifier::external_body]
fn be_read_u64(buf: &[u8]) -> (n: u64)
    requires
        buf@.len() >= 8,
    ensures
        n == u64_from_be(buf@),
{
    BigEndian::read_u64(buf)
}

/// byteorder's `BigEndian::write_u32` on a fresh four-byte buffer: the
/// big-endian bytes of `n`.
#[verifier::external_body]
fn be_write_u32(n: u32) -> (b: [u8; 4])
    ensures
        b@ == u32_to_be(n),
{
    let mut b: [u8; 4] = [0u8; 4];
    BigEndian::write_u32(&mut b, n);
    b
}

/// byteorder's `BigEndian::write_i32` on a fresh four-byte buffer: the
/// big-endian two's-complement bytes of `n`.
#[verifier::external_body]
fn be_write_i32(n: i32) -> (b: [u8; 4])
    ensures
        b@ == i32_to_be(n),
{
    let mut b: [u8; 4] = [0u8; 4];
    BigEndian::write_i32(&mut b, n);
    b
}

/// byteorder's `BigEndian::write_u64` on a fresh eight-byte buffer: the
/// big-endian bytes of `n`.
#[verifier::external_body]
fn be_write_u64(n: u64) -> (b: [u8; 8])
    ensures
        b@ == u64_to_be(n),
{
    let mut b: [u8; 8] = [0u8; 8];
    BigEndian::write_u64(&mut b, n);
    b
}

// ---------------------------------------------------------------------------
// Encodings
// ---------------------------------------------------------------------------

/// The number of padding bytes after `n` bytes of opaque data.
pub open spec fn pad_len(n: nat) -> nat {
    ((4 - n % 4) % 4) as nat
}

pub open spec fn encode_u32(n: u32) -> Seq<u8> {
    u32_to_be(n)
}

pub open spec fn encode_i32(n: i32) -> Seq<u8> {
    i32_to_be(n)
}

pub open spec fn encode_u64(n: u64) -> Seq<u8> {
    u64_to_be(n)
}

/// A boolean is the 32-bit integer 1 or 0.
pub open spec fn encode_bool(b: bool) -> Seq<u8> {
    u32_to_be(if b { 1u32 } else { 0u32 })
}

/// An opaque string is its length in 32 bits, its bytes, and zeros up to the
/// next multiple of four.
#[verifier::opaque]
pub open spec fn encode_opaque(data: Seq<u8>) -> Seq<u8>
    recommends
        data.len() <= u32::MAX,
{
    u32_to_be(data.len() as u32) + data + Seq::new(pad_len(data.len()), |i: int| 0u8)
}

// ---------------------------------------------------------------------------
// Spec decoders
// ---------------------------------------------------------------------------

pub open spec fn decode_u32(s: Seq<u8>, at: int) -> Decoded<u32> {
    if 0 <= at && at + 4 <= s.len() {
        Ok((u32_from_be(s.subrange(at, at + 4)), at + 4))
    } else {
        Err(ProtocolDecodeError::Truncated)
    }
}

pub open spec fn decode_i32(s: Seq<u8>, at: int) -> Decoded<i32> {
    if 0 <= at && at + 4 <= s.len() {
        Ok((i32_from_be(s.subrange(at, at + 4)), at + 4))
    } else {
        Err(ProtocolDecodeError::Truncated)
    }
}

pub open spec fn decode_u64(s: Seq<u8>, at: int) -> Decoded<u64> {
    if 0 <= at && at + 8 <= s.len() {
        Ok((u64_from_be(s.subrange(at, at + 8)), at + 8))
    } else {
        Err(ProtocolDecodeError::Truncated)
    }
}

/// Any nonzero integer reads as `true`.
pub open spec fn decode_bool(s: Seq<u8>, at: int) -> Decoded<bool> {
    match decode_u32(s, at) {
        Ok((n, end)) => Ok((n != 0, end)),
        Err(e) => Err(e),
    }
}

/// The padding is skipped, whatever it holds; it must be there.
#[verifier::opaque]
pub open spec fn decode_opaque(s: Seq<u8>, at: int) -> Decoded<Seq<u8>> {
    match decode_u32(s, at) {
        Ok((n, start)) => {
            if start + n + pad_len(n as nat) <= s.len() {
                Ok((s.subrange(start, start + n), start + n + pad_len(n as nat)))
            } else {
                Err(ProtocolDecodeError::Truncated)
            }
        },
        Err(e) => Err(e),
    }
}

// ---------------------------------------------------------------------------
// Decoding what was encoded
// ---------------------------------------------------------------------------

pub proof fn lemma_decode_u32(s: Seq<u8>, at: int, n: u32)
    requires
        holds_at(s, at, encode_u32(n)),
    ensures
        decode_u32(s, at) == Ok::<(u32, int), ProtocolDecodeError>((n, at + 4)),
{
    reveal(holds_at);
    lemma_u32_be_roundtrip(n);
}

pub proof fn lemma_decode_i32(s: Seq<u8>, at: int, n: i32)
    requires
        holds_at(s, at, encode_i32(n)),
    ensures
        decode_i32(s, at) == Ok::<(i32, int), ProtocolDecodeError>((n, at + 4)),
{
    reveal(holds_at);
    lemma_i32_be_roundtrip(n);
}

pub proof fn lemma_decode_u64(s: Seq<u8>, at: int, n: u64)
    requires
        holds_at(s, at, encode_u64(n)),
    ensures
        decode_u64(s, at) == Ok::<(u64, int), ProtocolDecodeError>((n, at + 8)),
{
    reveal(holds_at);
    lemma_u64_be_roundtrip(n);
}

pub proof fn lemma_decode_bool(s: Seq<u8>, at: int, b: bool)
    requires
        holds_at(s, at, encode_bool(b)),
    ensures
        decode_bool(s, at) == Ok::<(bool, int), ProtocolDecodeError>((b, at + 4)),
{
    lemma_decode_u32(s, at, if b { 1u32 } else { 0u32 });
}

/// The length of an opaque string's encoding: a multiple of four.
pub proof fn lemma_encode_opaque_len(data: Seq<u8>)
    ensures
        encode_opaque(data).len() == 4 + data.len() + pad_len(data.len()),
        encode_opaque(data).len() % 4 == 0,
        encode_opaque(data).len() >= 4,
{
    reveal(encode_opaque);
}

/// An opaque string is read back from any bytes that hold its length and its
/// data and leave room for its padding.
pub proof fn lemma_decode_opaque_any_padding(s: Seq<u8>, at: int, data: Seq<u8>)
    requires
        data.len() <= u32::MAX,
        holds_at(s, at, encode_u32(data.len() as u32) + data),
        at + 4 + data.len() + pad_len(data.len()) <= s.len(),
    ensures
        decode_opaque(s, at) == Ok::<(Seq<u8>, int), ProtocolDecodeError>(
            (data, at + 4 + data.len() + pad_len(data.len())),
        ),
{
    let n = data.len() as u32;
    lemma_holds_at_split(s, at, encode_u32(n), data);
    lemma_decode_u32(s, at, n);
    reveal(holds_at);
    reveal(decode_opaque);
}

pub proof fn lemma_decode_opaque(s: Seq<u8>, at: int, data: Seq<u8>)
    requires
        data.len() <= u32::MAX,
        holds_at(s, at, encode_opaque(data)),
    ensures
        decode_opaque(s, at) == Ok::<(Seq<u8>, int), ProtocolDecodeError>(
            (data, at + encode_opaque(data).len()),
        ),
{
    let head = encode_u32(data.len() as u32) + data;
    let zeros = Seq::new(pad_len(data.len()), |i: int| 0u8);
    assert(encode_opaque(data) == head + zeros) by {
        reveal(encode_opaque);
    }
    lemma_encode_opaque_len(data);
    lemma_holds_at_split(s, at, head, zeros);
    assert(at + 4 + data.len() + pad_len(data.len()) <= s.len()) by {
        reveal(holds_at);
    }
    lemma_decode_opaque_any_padding(s, at, data);
}

/// Padding tolerance: an opaque string followed by padding bytes of any
/// content, and by anything after them, decodes to the string itself and ends
/// just after the padding.
pub proof fn law_opaque_padding_is_not_read(data: Seq<u8>, padding: Seq<u8>, rest: Seq<u8>)
    requires
        data.len() <= u32::MAX,
        padding.len() == pad_len(data.len()),
    ensures
        decode_opaque(encode_u32(data.len() as u32) + data + padding + rest, 0) == Ok::<
            (Seq<u8>, int),
            ProtocolDecodeError,
        >((data, 4 + data.len() as int + padding.len())),
{
    let head = encode_u32(data.len() as u32) + data;
    let s = head + padding + rest;
    assert(holds_at(s, 0, head)) by {
        reveal(holds_at);
        assert(s.subrange(0, head.len() as int) =~= head);
    }
    lemma_decode_opaque_any_padding(s, 0, data);
}

/// A boolean that was written as any integer but zero reads as `true`, and
/// one that was written as zero reads as `false`.
pub proof fn law_nonzero_reads_as_true(n: u32)
    ensures
        decode_bool(encode_u32(n), 0) == Ok::<(bool, int), ProtocolDecodeError>((n != 0, 4)),
{
    lemma_holds_at_start(encode_u32(n));
    lemma_decode_u32(encode_u32(n), 0, n);
}

/// An opaque string's decoder fails only for want of bytes, and where it
/// succeeds it has read at least a length, stayed within its input, and
/// yielded a string that can be encoded again.
pub proof fn lemma_decode_opaque_end(s: Seq<u8>, at: int)
    ensures
        match decode_opaque(s, at) {
            Ok((data, end)) => 0 <= at && at + 4 <= end <= s.len() && data.len() <= u32::MAX,
            Err(e) => e == ProtocolDecodeError::Truncated,
        },
        at < 0 || s.len() - at < 4 ==> decode_opaque(s, at) is Err,
{
    reveal(decode_opaque);
}

// ---------------------------------------------------------------------------
// Decoding what was cut short
// ---------------------------------------------------------------------------

/// `s` ends inside `enc`, which starts at `at`: what `s` has from there on is
/// the start of `enc`, and not all of it.
#[verifier::opaque]
pub open spec fn cut_at(s: Seq<u8>, at: int, enc: Seq<u8>) -> bool {
    &&& 0 <= at <= s.len() < at + enc.len()
    &&& s.subrange(at, s.len() as int) == enc.subrange(0, s.len() - at)
}

/// A sequence without its end is cut inside itself.
pub proof fn lemma_cut_at_start(enc: Seq<u8>, k: int)
    requires
        0 <= k < enc.len(),
    ensures
        cut_at(enc.subrange(0, k), 0, enc),
{
    reveal(cut_at);
    let s = enc.subrange(0, k);
    assert(s.subrange(0, s.len() as int) =~= enc.subrange(0, s.len() - 0));
}

/// Where a concatenation is cut, either its first half is cut, or its first
/// half stands whole and its second half is cut.
pub proof fn lemma_cut_at_split(s: Seq<u8>, at: int, a: Seq<u8>, b: Seq<u8>)
    requires
        cut_at(s, at, a + b),
    ensures
        cut_at(s, at, a) || (holds_at(s, at, a) && cut_at(s, at + a.len(), b)),
{
    reveal(cut_at);
    reveal(holds_at);
    let have = s.len() - at;
    let tail = s.subrange(at, s.len() as int);
    if have < a.len() {
        assert(tail =~= a.subrange(0, have));
    } else {
        assert(s.subrange(at, at + a.len()) =~= tail.subrange(0, a.len() as int));
        assert((a + b).subrange(0, have).subrange(0, a.len() as int) =~= a);
        assert(s.subrange(at + a.len(), s.len() as int) =~= tail.subrange(
            a.len() as int,
            have,
        ));
        assert((a + b).subrange(0, have).subrange(a.len() as int, have) =~= b.subrange(
            0,
            have - a.len(),
        ));
    }
}

pub proof fn lemma_cut_u32(s: Seq<u8>, at: int, n: u32)
    requires
        cut_at(s, at, encode_u32(n)),
    ensures
        decode_u32(s, at) == Err::<(u32, int), ProtocolDecodeError>(ProtocolDecodeError::Truncated),
{
    reveal(cut_at);
}

pub proof fn lemma_cut_i32(s: Seq<u8>, at: int, n: i32)
    requires
        cut_at(s, at, encode_i32(n)),
    ensures
        decode_i32(s, at) == Err::<(i32, int), ProtocolDecodeError>(ProtocolDecodeError::Truncated),
{
    reveal(cut_at);
}

pub proof fn lemma_cut_u64(s: Seq<u8>, at: int, n: u64)
    requires
        cut_at(s, at, encode_u64(n)),
    ensures
        decode_u64(s, at) == Err::<(u64, int), ProtocolDecodeError>(ProtocolDecodeError::Truncated),
{
    reveal(cut_at);
}

pub proof fn lemma_cut_bool(s: Seq<u8>, at: int, b: bool)
    requires
        cut_at(s, at, encode_bool(b)),
    ensures
        decode_bool(s, at) == Err::<(bool, int), ProtocolDecodeError>(
            ProtocolDecodeError::Truncated,
        ),
{
    reveal(cut_at);
}

pub proof fn lemma_cut_opaque(s: Seq<u8>, at: int, data: Seq<u8>)
    requires
        data.len() <= u32::MAX,
        cut_at(s, at, encode_opaque(data)),
    ensures
        decode_opaque(s, at) == Err::<(Seq<u8>, int), ProtocolDecodeError>(
            ProtocolDecodeError::Truncated,
        ),
{
    let n = data.len() as u32;
    let rest = data + Seq::new(pad_len(data.len()), |i: int| 0u8);
    assert(encode_opaque(data) =~= encode_u32(n) + rest) by {
        reveal(encode_opaque);
    }
    lemma_encode_opaque_len(data);
    lemma_cut_at_split(s, at, encode_u32(n), rest);
    reveal(decode_opaque);
    if cut_at(s, at, encode_u32(n)) {
        lemma_cut_u32(s, at, n);
    } else {
        lemma_decode_u32(s, at, n);
        assert(s.len() < at + 4 + n + pad_len(n as nat)) by {
            reveal(cut_at);
        }
    }
}

// ---------------------------------------------------------------------------
// Executable encoders
// ---------------------------------------------------------------------------

/// Appends the encoding of `n` to `dest`.
pub fn put_u32(dest: &mut Vec<u8>, n: u32)
    ensures
        final(dest)@ == old(dest)@ + encode_u32(n),
{
    let b: [u8; 4] = be_write_u32(n);
    dest.extend_from_slice(&b);
}

/// Appends the encoding of `n` to `dest`.
pub fn put_i32(dest: &mut Vec<u8>, n: i32)
    ensures
        final(dest)@ == old(dest)@ + encode_i32(n),
{
    let b: [u8; 4] = be_write_i32(n);
    dest.extend_from_slice(&b);
}

/// Appends the encoding of `n` to `dest`.
pub fn put_u64(dest: &mut Vec<u8>, n: u64)
    ensures
        final(dest)@ == old(dest)@ + encode_u64(n),
{
    let b: [u8; 8] = be_write_u64(n);
    dest.extend_from_slice(&b);
}

/// Appends the encoding of `b` to `dest`.
pub fn put_bool(dest: &mut Vec<u8>, b: bool)
    ensures
        final(dest)@ == old(dest)@ + encode_bool(b),
{
    let n: u32 = if b { 1 } else { 0 };
    put_u32(dest, n);
}

/// Appends the encoding of the opaque string `data` to `dest`.
pub fn put_opaque(dest: &mut Vec<u8>, data: &Vec<u8>)
    requires
        data@.len() <= u32::MAX,
    ensures
        final(dest)@ == old(dest)@ + encode_opaque(data@),
{
    let len: usize = data.len();
    put_u32(dest, len as u32);
    dest.extend_from_slice(data.as_slice());
    let pad: usize = (4 - len % 4) % 4;
    let ghost body = dest@;
    let mut i: usize = 0;
    while i < pad
        invariant
            i <= pad,
            pad == pad_len(len as nat),
            dest@ == body + Seq::new(i as nat, |j: int| 0u8),
        decreases pad - i,
    {
        dest.push(0u8);
        i = i + 1;
        assert(dest@ =~= body + Seq::new(i as nat, |j: int| 0u8));
    }
    proof {
        reveal(encode_opaque);
        assert(dest@ =~= old(dest)@ + encode_opaque(data@));
    }
}

// ---------------------------------------------------------------------------
// Executable decoders
// ---------------------------------------------------------------------------

/// Reads a 32-bit unsigned integer at `at`.
pub fn get_u32(src: &[u8], at: usize) -> (r: Result<(u32, usize), ProtocolDecodeError>)
    ensures
        decoded(r, decode_u32(src@, at as int)),
{
    if at > src.len() || src.len() - at < 4 {
        return Err(ProtocolDecodeError::Truncated);
    }
    let window = slice_subrange(src, at, at + 4);
    Ok((be_read_u32(window), at + 4))
}

/// Reads a 32-bit signed integer at `at`.
pub fn get_i32(src: &[u8], at: usize) -> (r: Result<(i32, usize), ProtocolDecodeError>)
    ensures
        decoded(r, decode_i32(src@, at as int)),
{
    if at > src.len() || src.len() - at < 4 {
        return Err(ProtocolDecodeError::Truncated);
    }
    let window = slice_subrange(src, at, at + 4);
    Ok((be_read_i32(window), at + 4))
}

/// Reads a 64-bit unsigned integer at `at`.
pub fn get_u64(src: &[u8], at: usize) -> (r: Result<(u64, usize), ProtocolDecodeError>)
    ensures
        decoded(r, decode_u64(src@, at as int)),
{
    if at > src.len() || src.len() - at < 8 {
        return Err(ProtocolDecodeError::Truncated);
    }
    let window = slice_subrange(src, at, at + 8);
    Ok((be_read_u64(window), at + 8))
}

/// Reads a boolean at `at`; any nonzero integer is `true`.
pub fn get_bool(src: &[u8], at: usize) -> (r: Result<(bool, usize), ProtocolDecodeError>)
    ensures
        decoded(r, decode_bool(src@, at as int)),
{
    match get_u32(src, at) {
        Ok((n, end)) => Ok((n != 0, end)),
        Err(e) => Err(e),
    }
}

/// Reads an opaque string at `at` and skips its padding.
pub fn get_opaque(src: &[u8], at: usize) -> (r: Result<(Vec<u8>, usize), ProtocolDecodeError>)
    ensures
        decoded(r, decode_opaque(src@, at as int)),
{
    proof {
        reveal(decode_opaque);
    }
    let (n, start) = match get_u32(src, at) {
        Ok(v) => v,
        Err(e) => return Err(e),
    };
    let pad: u64 = ((4 - n % 4) % 4) as u64;
    let need: u64 = n as u64 + pad;
    let rest: usize = src.len() - start;
    if (rest as u64) < need {
        return Err(ProtocolDecodeError::Truncated);
    }
    let len: usize = n as usize;
    let data = slice_subrange(src, start, start + len);
    let mut out: Vec<u8> = Vec::new();
    out.extend_from_slice(data);
    assert(out@ =~= data@);
    Ok((out, start + len + pad as usize))
}

} // verus!
