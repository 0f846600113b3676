//! Numbers as runs of bytes, least significant byte first.

use byteorder::{ByteOrder, LittleEndian};
use vstd::arithmetic::power::pow;
use vstd::prelude::*;

verus! {

/// The number that a run of bytes denotes, least significant byte first.
pub open spec fn le_value(s: Seq<u8>) -> nat
    decreases s.len(),
{
    if s.len() == 0 {
        0
    } else {
        s[0] as nat + 256 * le_value(s.subrange(1, s.len() as int))
    }
}

/// The lowest `len` bytes of `n`, least significant byte first.
pub open spec fn le_bytes(n: nat, len: nat) -> Seq<u8>
    decreases len,
{
    if len == 0 {
        seq![]
    } else {
        seq![(n % 256) as u8] + le_bytes(n / 256, (len - 1) as nat)
    }
}

/// The number of bytes is the one that was asked for.
pub proof fn lemma_le_bytes_len(n: nat, len: nat)
    ensures
        le_bytes(n, len).len() == len,
    decreases len,
{
    if len > 0 {
        lemma_le_bytes_len(n / 256, (len - 1) as nat);
    }
}

/// Reading back the bytes of a number that fits gives the number.
pub proof fn lemma_le_round_trip(n: nat, len: nat)
    requires
        n < pow(256, len),
    ensures
        le_value(le_bytes(n, len)) == n,
    decreases len,
{
    reveal(pow);
    lemma_le_bytes_len(n, len);
    if len > 0 {
        let rest = le_bytes(n / 256, (len - 1) as nat);
        lemma_le_bytes_len(n / 256, (len - 1) as nat);
        assert(pow(256, len) == 256 * pow(256, (len - 1) as nat));
        assert(n / 256 < pow(256, (len - 1) as nat));
        lemma_le_round_trip(n / 256, (len - 1) as nat);
        let all = le_bytes(n, len);
        assert(all.subrange(1, all.len() as int) =~= rest);
    }
}

/// The bytes of the number that a run of bytes denotes are that run.
pub proof fn lemma_le_bytes_of_value(s: Seq<u8>)
    ensures
        le_bytes(le_value(s), s.len()) == s,
    decreases s.len(),
{
    if s.len() > 0 {
        let rest = s.subrange(1, s.len() as int);
        lemma_le_bytes_of_value(rest);
        let v = le_value(rest);
        assert((s[0] as nat + 256 * v) % 256 == s[0] as nat);
        assert((s[0] as nat + 256 * v) / 256 == v);
        assert(le_bytes(le_value(s), s.len()) =~= s);
    } else {
        assert(le_bytes(le_value(s), s.len()) =~= s);
    }
}

/// A run of bytes denotes a number that fits its length.
pub proof fn lemma_le_value_bound(s: Seq<u8>)
    ensures
        le_value(s) < pow(256, s.len()),
    decreases s.len(),
{
    reveal(pow);
    if s.len() > 0 {
        lemma_le_value_bound(s.subrange(1, s.len() as int));
        assert(pow(256, s.len()) == 256 * pow(256, (s.len() - 1) as nat));
    }
}

proof fn lemma_powers()
    ensures
        pow(256, 2) == 0x1_0000,
        pow(256, 4) == 0x1_0000_0000,
        pow(256, 8) == 0x1_0000_0000_0000_0000,
{
    reveal_with_fuel(pow, 9);
}

/// Four bytes hold every `u32`.
pub proof fn lemma_u32_round_trip(n: u32)
    ensures
        le_bytes(n as nat, 4).len() == 4,
        le_value(le_bytes(n as nat, 4)) == n,
{
    lemma_powers();
    lemma_le_bytes_len(n as nat, 4);
    lemma_le_round_trip(n as nat, 4);
}

/// Two bytes hold every `u16`.
pub proof fn lemma_u16_round_trip(n: u16)
    ensures
        le_bytes(n as nat, 2).len() == 2,
        le_value(le_bytes(n as nat, 2)) == n,
{
    lemma_powers();
    lemma_le_bytes_len(n as nat, 2);
    lemma_le_round_trip(n as nat, 2);
}

/// Eight bytes hold every `u64`.
pub proof fn lemma_u64_round_trip(n: u64)
    ensures
        le_bytes(n as nat, 8).len() == 8,
        le_value(le_bytes(n as nat, 8)) == n,
{
    lemma_powers();
    lemma_le_bytes_len(n as nat, 8);
    lemma_le_round_trip(n as nat, 8);
}

/// Two's complement in 64 bits.
pub open spec fn unsigned_64(n: int) -> nat {
    if n < 0 {
        (n + 0x1_0000_0000_0000_0000) as nat
    } else {
        n as nat
    }
}

/// The number that 64 bits denote in two's complement.
pub open spec fn signed_64(n: nat) -> int {
    if n < 0x8000_0000_0000_0000 {
        n as int
    } else {
        n - 0x1_0000_0000_0000_0000
    }
}

/// Eight bytes hold every `i64`.
pub proof fn lemma_i64_round_trip(n: i64)
    ensures
        le_bytes(unsigned_64(n as int), 8).len() == 8,
        signed_64(le_value(le_bytes(unsigned_64(n as int), 8))) == n,
{
    lemma_u64_round_trip(unsigned_64(n as int) as u64);
}

/// The remainder modulo 2^32, as a `u32`.
pub open spec fn low_u32(n: int) -> u32 {
    (n % 0x1_0000_0000) as u32
}

/// The low 32 bits of a length.
pub fn truncate_len(n: usize) -> (r: u32)
    ensures
        r == low_u32(n as int),
{
    let w: u64 = n as u64;
    assert(w & 0xffff_ffff == w % 0x1_0000_0000) by (bit_vector);
    (w & 0xffff_ffff) as u32
}

/// `LittleEndian::read_u16` of the byteorder crate on the two bytes from `at` on: the number
/// that they denote.
#[verifier::external_body]
pub(crate) fn read_u16(buf: &[u8], at: usize) -> (r: u16)
    requires
        at + 2 <= buf@.len(),
    ensures
        r as nat == le_value(buf@.subrange(at as int, at + 2)),
{
    LittleEndian::read_u16(&buf[at..at + 2])
}

/// `LittleEndian::read_u32` of the byteorder crate on the four bytes from `at` on: the number
/// that they denote.
#[verifier::external_body]
pub(crate) fn read_u32(buf: &[u8], at: usize) -> (r: u32)
    requires
        at + 4 <= buf@.len(),
    ensures
        r as nat == le_value(buf@.subrange(at as int, at + 4)),
{
    LittleEndian::read_u32(&buf[at..at + 4])
}

/// `LittleEndian::read_u64` of the byteorder crate on the eight bytes from `at` on: the
/// number that they denote.
#[verifier::external_body]
pub(crate) fn read_u64(buf: &[u8], at: usize) -> (r: u64)
    requires
        at + 8 <= buf@.len(),
    ensures
        r as nat == le_value(buf@.subrange(at as int, at + 8)),
{
    LittleEndian::read_u64(&buf[at..at + 8])
}

/// `LittleEndian::read_i64` of the byteorder crate on the eight bytes from `at` on: the
/// number that they denote in two's complement.
#[verifier::external_body]
pub(crate) fn read_i64(buf: &[u8], at: usize) -> (r: i64)
    requires
        at + 8 <= buf@.len(),
    ensures
        r as int == signed_64(le_value(buf@.subrange(at as int, at + 8))),
{
    LittleEndian::read_i64(&buf[at..at + 8])
}

/// `LittleEndian::write_u32` of the byteorder crate into four bytes: the bytes of the number.
#[verifier::external_body]
pub(crate) fn u32_bytes(n: u32) -> (r: [u8; 4])
    ensures
        r@ == le_bytes(n as nat, 4),
{
    let mut buf = [0u8; 4];
    LittleEndian::write_u32(&mut buf, n);
    buf
}

/// `LittleEndian::write_u64` of the byteorder crate into eight bytes: the bytes of the number.
#[verifier::external_body]
pub(crate) fn u64_bytes(n: u64) -> (r: [u8; 8])
    ensures
        r@ == le_bytes(n as nat, 8),
{
    let mut buf = [0u8; 8];
    LittleEndian::write_u64(&mut buf, n);
    buf
}

/// `LittleEndian::write_i64` of the byteorder crate into eight bytes: the bytes of the number
/// in two's complement.
#[verifier::external_body]
pub(crate) fn i64_bytes(n: i64) -> (r: [u8; 8])
    ensures
        r@ == le_bytes(unsigned_64(n as int), 8),
{
    let mut buf = [0u8; 8];
    LittleEndian::write_i64(&mut buf, n);
    buf
}

/// Appends bytes.
pub fn push_bytes(out: &mut Vec<u8>, data: &[u8])
    ensures
        final(out)@ == old(out)@ + data@,
{
    out.extend_from_slice(data);
    assert(out@ =~= old(out)@ + data@);
}

/// Appends the bytes of a number.
pub fn push_u32(out: &mut Vec<u8>, n: u32)
    ensures
        final(out)@ == old(out)@ + le_bytes(n as nat, 4),
{
    let b = u32_bytes(n);
    push_bytes(out, b.as_slice());
}

/// Appends the bytes of a number.
pub fn push_u64(out: &mut Vec<u8>, n: u64)
    ensures
        final(out)@ == old(out)@ + le_bytes(n as nat, 8),
{
    let b = u64_bytes(n);
    push_bytes(out, b.as_slice());
}

/// Appends the bytes of a number in two's complement.
pub fn push_i64(out: &mut Vec<u8>, n: i64)
    ensures
        final(out)@ == old(out)@ + le_bytes(unsigned_64(n as int), 8),
{
    let b = i64_bytes(n);
    push_bytes(out, b.as_slice());
}

/// Appends the bytes of a number.
pub fn push_u16(out: &mut Vec<u8>, n: u16)
    ensures
        final(out)@ == old(out)@ + le_bytes(n as nat, 2),
{
    out.push((n % 256) as u8);
    out.push((n / 256) as u8);
    proof {
        let v = n as nat;
        assert(le_bytes(v / 256 / 256, 0) =~= seq![]);
        assert(le_bytes(v / 256, 1) =~= seq![(v / 256 % 256) as u8]);
        assert(le_bytes(v, 2) =~= seq![(v % 256) as u8, (v / 256 % 256) as u8]);
        assert(out@ =~= old(out)@ + le_bytes(v, 2));
    }
}

/// The number that two bytes are, the least significant first.
pub open spec fn half_at(buf: Seq<u8>, at: int) -> nat {
    buf[at] as nat + 0x100 * buf[at + 1] as nat
}

/// The number that four bytes are, the least significant first.
pub open spec fn word_at(buf: Seq<u8>, at: int) -> nat {
    buf[at] as nat + 0x100 * buf[at + 1] as nat + 0x1_0000 * buf[at + 2] as nat + 0x100_0000
        * buf[at + 3] as nat
}

/// The number that eight bytes are, the least significant first.
pub open spec fn long_at(buf: Seq<u8>, at: int) -> nat {
    word_at(buf, at) + 0x1_0000_0000 * word_at(buf, at + 4)
}

proof fn lemma_le_value_step(buf: Seq<u8>, at: int, end: int)
    requires
        0 <= at < end <= buf.len(),
    ensures
        le_value(buf.subrange(at, end)) == buf[at] as nat + 256 * le_value(
            buf.subrange(at + 1, end),
        ),
{
    let s = buf.subrange(at, end);
    assert(s.subrange(1, s.len() as int) =~= buf.subrange(at + 1, end));
}

/// A number of two, four or eight bytes is its bytes, each worth 256 times the one before it.
pub proof fn numbers_are_little_endian(buf: Seq<u8>, at: int)
    requires
        0 <= at,
    ensures
        at + 2 <= buf.len() ==> le_value(buf.subrange(at, at + 2)) == half_at(buf, at),
        at + 4 <= buf.len() ==> le_value(buf.subrange(at, at + 4)) == word_at(buf, at),
        at + 8 <= buf.len() ==> le_value(buf.subrange(at, at + 8)) == long_at(buf, at),
{
    if at + 2 <= buf.len() {
        lemma_le_value_step(buf, at, at + 2);
        lemma_le_value_step(buf, at + 1, at + 2);
        assert(le_value(buf.subrange(at + 2, at + 2)) == 0);
    }
    if at + 4 <= buf.len() {
        lemma_le_value_step(buf, at, at + 4);
        lemma_le_value_step(buf, at + 1, at + 4);
        lemma_le_value_step(buf, at + 2, at + 4);
        lemma_le_value_step(buf, at + 3, at + 4);
        assert(le_value(buf.subrange(at + 4, at + 4)) == 0);
    }
    if at + 8 <= buf.len() {
        lemma_le_value_step(buf, at, at + 8);
        lemma_le_value_step(buf, at + 1, at + 8);
        lemma_le_value_step(buf, at + 2, at + 8);
        lemma_le_value_step(buf, at + 3, at + 8);
        lemma_le_value_step(buf, at + 4, at + 8);
        lemma_le_value_step(buf, at + 5, at + 8);
        lemma_le_value_step(buf, at + 6, at + 8);
        lemma_le_value_step(buf, at + 7, at + 8);
        assert(le_value(buf.subrange(at + 8, at + 8)) == 0);
    }
}

/// A number is read from its own bytes, whatever stands behind them.
pub proof fn lemma_word_in_front(head: Seq<u8>, tail: Seq<u8>, at: int)
    requires
        0 <= at,
        at + 4 <= head.len(),
    ensures
        word_at(head + tail, at) == word_at(head, at),
{
}

} // verus!
