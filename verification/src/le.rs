//! Little-endian integers: what a sequence of bytes stands for, and the
//! decoders of the `byteorder` crate.

use byteorder::{ByteOrder, LittleEndian};
use vstd::arithmetic::div_mod::lemma_div_denominator;
use vstd::arithmetic::power2::{lemma2_to64, lemma_pow2_adds, lemma_pow2_pos, pow2};
use vstd::prelude::*;

verus! {

/// The unsigned number that `s` encodes, least significant byte first.
pub open spec fn le_nat(s: Seq<u8>) -> nat
    decreases s.len(),
{
    if s.len() == 0 {
        0
    } else {
        s[0] as nat + 256 * le_nat(s.skip(1))
    }
}

/// The two's complement number that `s` encodes, least significant byte first.
pub open spec fn le_int(s: Seq<u8>) -> int
    decreases s.len(),
{
    if s.len() == 0 {
        0
    } else if s.len() == 1 {
        if s[0] < 128 {
            s[0] as int
        } else {
            s[0] - 256
        }
    } else {
        s[0] + 256 * le_int(s.skip(1))
    }
}

/// The low `n` bytes of `x`, least significant byte first.
pub open spec fn le_bytes(x: nat, n: nat) -> Seq<u8>
    decreases n,
{
    if n == 0 {
        Seq::empty()
    } else {
        seq![(x % 256) as u8] + le_bytes(x / 256, (n - 1) as nat)
    }
}

/// `byteorder::LittleEndian::read_uint`: the unsigned number in the first
/// `nbytes` bytes of `buf`. It panics unless `nbytes` is between 1 and 8 and
/// `buf` holds that many bytes.
#[verifier::external_body]
pub(crate) fn decode_uint(buf: &[u8], nbytes: usize) -> (r: u64)
    requires
        1 <= nbytes <= 8,
        nbytes <= buf@.len(),
    ensures
        r == le_nat(buf@.take(nbytes as int)),
{
    LittleEndian::read_uint(buf, nbytes)
}

/// `byteorder::LittleEndian::read_u16`: the unsigned number in the first two
/// bytes of `buf`. It panics on a shorter `buf`.
#[verifier::external_body]
pub(crate) fn decode_u16(buf: &[u8]) -> (r: u16)
    requires
        2 <= buf@.len(),
    ensures
        r == le_nat(buf@.take(2)),
{
    LittleEndian::read_u16(buf)
}

/// `byteorder::LittleEndian::read_i16`: the two's complement number in the
/// first two bytes of `buf`. It panics on a shorter `buf`.
#[verifier::external_body]
pub(crate) fn decode_i16(buf: &[u8]) -> (r: i16)
    requires
        2 <= buf@.len(),
    ensures
        r == le_int(buf@.take(2)),
{
    LittleEndian::read_i16(buf)
}

/// `byteorder::LittleEndian::read_u32`: the unsigned number in the first four
/// bytes of `buf`. It panics on a shorter `buf`.
#[verifier::external_body]
pub(crate) fn decode_u32(buf: &[u8]) -> (r: u32)
    requires
        4 <= buf@.len(),
    ensures
        r == le_nat(buf@.take(4)),
{
    LittleEndian::read_u32(buf)
}

/// `byteorder::LittleEndian::read_i32`: the two's complement number in the
/// first four bytes of `buf`. It panics on a shorter `buf`.
#[verifier::external_body]
pub(crate) fn decode_i32(buf: &[u8]) -> (r: i32)
    requires
        4 <= buf@.len(),
    ensures
        r == le_int(buf@.take(4)),
{
    LittleEndian::read_i32(buf)
}

/// `byteorder::LittleEndian::read_u64`: the unsigned number in the first eight
/// bytes of `buf`. It panics on a shorter `buf`.
#[verifier::external_body]
pub(crate) fn decode_u64(buf: &[u8]) -> (r: u64)
    requires
        8 <= buf@.len(),
    ensures
        r == le_nat(buf@.take(8)),
{
    LittleEndian::read_u64(buf)
}

/// `byteorder::LittleEndian::read_i64`: the two's complement number in the
/// first eight bytes of `buf`. It panics on a shorter `buf`.
#[verifier::external_body]
pub(crate) fn decode_i64(buf: &[u8]) -> (r: i64)
    requires
        8 <= buf@.len(),
    ensures
        r == le_int(buf@.take(8)),
{
    LittleEndian::read_i64(buf)
}

/// `n` bytes come out of `le_bytes(x, n)`.
pub proof fn lemma_le_bytes_len(x: nat, n: nat)
    ensures
        le_bytes(x, n).len() == n,
    decreases n,
{
    if n > 0 {
        lemma_le_bytes_len(x / 256, (n - 1) as nat);
    }
}

/// A number that fits in `n` bytes is read back from its bytes.
pub proof fn law_le_encode_decode(x: nat, n: nat)
    requires
        x < pow2(8 * n),
    ensures
        le_nat(le_bytes(x, n)) == x,
    decreases n,
{
    if n == 0 {
        lemma2_to64();
    } else {
        let m = (n - 1) as nat;
        lemma_pow2_adds(8, 8 * m);
        lemma2_to64();
        assert(x / 256 < pow2(8 * m)) by (nonlinear_arith)
            requires
                x < 256 * pow2(8 * m),
        ;
        law_le_encode_decode(x / 256, m);
        assert(le_bytes(x, n).skip(1) =~= le_bytes(x / 256, m));
    }
}

/// Every sequence of bytes is the encoding of the number it stands for.
pub proof fn law_le_decode_encode(s: Seq<u8>)
    ensures
        le_bytes(le_nat(s), s.len()) == s,
        le_nat(s) < pow2(8 * s.len()),
    decreases s.len(),
{
    lemma2_to64();
    if s.len() > 0 {
        let t = s.skip(1);
        law_le_decode_encode(t);
        lemma_pow2_adds(8, 8 * t.len());
        assert(le_nat(s) == s[0] as nat + 256 * le_nat(t));
        assert(le_nat(s) < 256 * pow2(8 * t.len())) by (nonlinear_arith)
            requires
                le_nat(s) == s[0] as nat + 256 * le_nat(t),
                s[0] < 256,
                le_nat(t) < pow2(8 * t.len()),
        ;
        assert(8 + 8 * t.len() == 8 * s.len());
        assert(le_bytes(le_nat(s), s.len()) =~= s);
    }
}

/// The two readings of the same bytes agree while the top bit is clear, and
/// otherwise differ by the number of values.
pub proof fn law_le_signed(s: Seq<u8>)
    requires
        s.len() > 0,
    ensures
        s.last() < 128 ==> le_int(s) == le_nat(s),
        s.last() >= 128 ==> le_int(s) == le_nat(s) - pow2(8 * s.len()),
    decreases s.len(),
{
    lemma2_to64();
    if s.len() == 1 {
        reveal_with_fuel(le_nat, 2);
    } else {
        let t = s.skip(1);
        law_le_signed(t);
        lemma_pow2_adds(8, 8 * t.len());
        assert(8 + 8 * t.len() == 8 * s.len());
        assert(s.last() == t.last());
    }
}

/// Byte `i` of `le_bytes(x, n)` is digit `i` of `x` in base 256.
pub proof fn lemma_le_bytes_digit(x: nat, n: nat, i: nat)
    requires
        i < n,
    ensures
        le_bytes(x, n).len() == n,
        le_bytes(x, n)[i as int] == (x / pow2(8 * i)) % 256,
    decreases i,
{
    lemma_le_bytes_len(x, n);
    lemma2_to64();
    if i > 0 {
        let j = (i - 1) as nat;
        lemma_le_bytes_digit(x / 256, (n - 1) as nat, j);
        lemma_pow2_adds(8, 8 * j);
        lemma_pow2_pos(8 * j);
        lemma_div_denominator(x as int, 256, pow2(8 * j) as int);
        assert(8 + 8 * j == 8 * i);
    } else {
        assert(x / 1 == x);
    }
}

} // verus!
