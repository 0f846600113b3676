//! The binary form of a public key.

use crate::bytes::{
    le_bytes, le_value, lemma_le_bytes_len, lemma_le_bytes_of_value, lemma_le_round_trip, lemma_le_value_bound,
    lemma_u32_round_trip, numbers_are_little_endian, push_bytes, push_u32, read_u32, word_at,
};
use crate::header::u32_at;
use crate::keys::{
    bytes_result, check_public_key, is_minimal, is_n0inv, is_public_key, modulus_has_bits,
    montgomery_square, power_of_two_mod, pubkey_binary, refusal, short_exponent, AuthError, AuthErrorModel, PublicKey,
    PublicKeyModel, ANDROID_PUBKEY_ENCODED_SIZE, ANDROID_PUBKEY_MODULUS_SIZE,
    ANDROID_PUBKEY_MODULUS_SIZE_WORDS,
};
use crate::text::{dec, decimal, owned};
use vstd::arithmetic::power::{
    lemma_pow_increases, lemma_pow_multiplies, lemma_pow_positive, lemma_pow_strictly_increases,
    pow,
};
use vstd::prelude::*;
use vstd::slice::{slice_subrange, slice_to_vec};

verus! {

/// `k` zeros.
pub open spec fn zeros(k: nat) -> Seq<u8> {
    Seq::new(k, |i: int| 0u8)
}

proof fn lemma_value_concat(a: Seq<u8>, b: Seq<u8>)
    ensures
        le_value(a + b) == le_value(a) + pow(256, a.len()) * le_value(b),
    decreases a.len(),
{
    reveal(pow);
    if a.len() == 0 {
        assert(a + b =~= b);
        assert(pow(256, 0) == 1);
    } else {
        let rest = a.subrange(1, a.len() as int);
        lemma_value_concat(rest, b);
        assert((a + b).subrange(1, (a + b).len() as int) =~= rest + b);
        let p = pow(256, (a.len() - 1) as nat);
        let v = le_value(b) as int;
        assert(pow(256, a.len()) == 256 * p);
        assert(256 * (p * v) == (256 * p) * v) by (nonlinear_arith);
    }
}

proof fn lemma_value_zeros(k: nat)
    ensures
        le_value(zeros(k)) == 0,
    decreases k,
{
    if k > 0 {
        assert(zeros(k).subrange(1, k as int) =~= zeros((k - 1) as nat));
        lemma_value_zeros((k - 1) as nat);
    }
}

proof fn lemma_pad(s: Seq<u8>, k: nat)
    requires
        s.len() <= k,
    ensures
        le_bytes(le_value(s), k) == s + zeros((k - s.len()) as nat),
        le_value(s + zeros((k - s.len()) as nat)) == le_value(s),
{
    let z = zeros((k - s.len()) as nat);
    lemma_value_concat(s, z);
    lemma_value_zeros((k - s.len()) as nat);
    assert(pow(256, s.len()) * 0 == 0) by (nonlinear_arith);
    lemma_le_bytes_of_value(s + z);
}

proof fn lemma_value_lower(s: Seq<u8>)
    requires
        s.len() >= 1,
        s[s.len() - 1] != 0,
    ensures
        le_value(s) >= pow(256, (s.len() - 1) as nat),
    decreases s.len(),
{
    reveal(pow);
    if s.len() > 1 {
        let rest = s.subrange(1, s.len() as int);
        lemma_value_lower(rest);
        assert(pow(256, (s.len() - 1) as nat) == 256 * pow(256, (s.len() - 2) as nat));
    } else {
        assert(s.subrange(1, 1) =~= seq![]);
    }
}

proof fn lemma_minimal_len(s: Seq<u8>, k: nat)
    requires
        is_minimal(s),
        k >= 1,
        le_value(s) < pow(256, k),
    ensures
        s.len() <= k,
{
    if s.len() > k {
        lemma_value_lower(s);
        lemma_pow_increases(256, k, (s.len() - 1) as nat);
    }
}

/// A modulus of 2048 bits has 256 bytes.
pub proof fn modulus_length(k: PublicKeyModel)
    requires
        is_minimal(k.n),
        modulus_has_bits(k, 2048),
    ensures
        k.n.len() == ANDROID_PUBKEY_MODULUS_SIZE,
{
    reveal_with_fuel(pow, 9);
    assert(pow(2, 8) == 256);
    lemma_pow_multiplies(2, 8, 256);
    lemma_pow_multiplies(2, 8, 255);
    assert(pow(256, 256) == pow(2, 2048));
    lemma_minimal_len(k.n, 256);
    if k.n.len() < 256 {
        lemma_le_value_bound(k.n);
        lemma_pow_increases(256, k.n.len(), 255);
        lemma_pow_increases(2, 2040, 2047);
    }
}

proof fn lemma_low_word(s: Seq<u8>)
    requires
        s.len() >= 4,
    ensures
        le_value(s) == le_value(s.subrange(0, 4)) + 0x1_0000_0000 * le_value(
            s.subrange(4, s.len() as int),
        ),
        le_value(s.subrange(0, 4)) < 0x1_0000_0000,
{
    reveal_with_fuel(pow, 5);
    let a = s.subrange(0, 4);
    let b = s.subrange(4, s.len() as int);
    assert(a + b =~= s);
    lemma_value_concat(a, b);
    lemma_le_value_bound(a);
    assert(pow(256, 4) == 0x1_0000_0000);
}

/// One step of Newton's iteration doubles the number of bits to which the inverse is right.
proof fn lemma_newton(n: int, inv: int, p: int, q: int, next: int, k: int, c: int)
    requires
        n * inv - 1 == q * p,
        next == inv * (2 - n * inv) + k * (c * (p * p)),
    ensures
        n * next - 1 == (n * k * c - q * q) * (p * p),
{
    let t = q * p;
    assert(n * inv == 1 + t);
    assert(inv * (2 - n * inv) == inv * (1 - t));
    assert(n * (inv * (1 - t)) == (n * inv) * (1 - t)) by (nonlinear_arith);
    assert((1 + t) * (1 - t) == 1 - t * t) by (nonlinear_arith);
    assert(n * next == n * (inv * (1 - t)) + n * (k * (c * (p * p)))) by (nonlinear_arith)
        requires
            next == inv * (1 - t) + k * (c * (p * p)),
    ;
    assert((q * p) * (q * p) == (q * q) * (p * p)) by (nonlinear_arith);
    assert(n * (k * (c * (p * p))) == (n * k * c) * (p * p)) by (nonlinear_arith);
    assert((n * k * c) * (p * p) - (q * q) * (p * p) == (n * k * c - q * q) * (p * p))
        by (nonlinear_arith);
}

fn wrapping_product(a: u32, b: u32) -> (r: u32)
    ensures
        r as int == (a * b) % 0x1_0000_0000,
{
    assert(a * b <= 0xffff_ffff * 0xffff_ffff) by (nonlinear_arith)
        requires
            a <= 0xffff_ffff,
            b <= 0xffff_ffff,
    ;
    let w: u64 = a as u64 * b as u64;
    assert(w & 0xffff_ffff == w % 0x1_0000_0000) by (bit_vector);
    (w & 0xffff_ffff) as u32
}

/// `n * x` is one more than a multiple of `p`.
spec fn inverse_to(n: int, x: int, p: int) -> bool {
    (n * x - 1) % p == 0
}

fn newton_step(n0: u32, inv: u32, Ghost(p): Ghost<int>) -> (next: u32)
    requires
        p == 2 || p == 4 || p == 16 || p == 256 || p == 65536,
        inverse_to(n0 as int, inv as int, p),
    ensures
        inverse_to(n0 as int, next as int, p * p),
{
    let product: u32 = wrapping_product(n0, inv);
    let m: u64 = 0x1_0000_0000;
    let difference: u32 = ((m + 2 - product as u64) % m) as u32;
    let next: u32 = wrapping_product(inv, difference);
    proof {
        let n = n0 as int;
        let i = inv as int;
        let mm = 0x1_0000_0000int;
        let a = (n * i) / mm;
        assert(n * i == a * mm + product);
        // difference == 2 - n*i + (a + b) * m for a b of zero or one
        let raw = mm + 2 - product;
        let b = raw / mm;
        assert(difference == raw - b * mm);
        let d = difference as int;
        let f = 1 - b + a;
        assert(d == 2 - n * i + f * mm);
        let g = (i * d) / mm;
        assert(i * d == g * mm + next);
        let k = i * f - g;
        assert(i * d == i * (2 - n * i) + (i * f) * mm) by (nonlinear_arith)
            requires
                d == 2 - n * i + f * mm,
        ;
        assert((i * f) * mm - g * mm == (i * f - g) * mm) by (nonlinear_arith);
        assert(next == i * (2 - n * i) + k * mm);
        let pp = p * p;
        assert(pp == 4 || pp == 16 || pp == 256 || pp == 65536 || pp == mm) by (nonlinear_arith)
            requires
                p == 2 || p == 4 || p == 16 || p == 256 || p == 65536,
                pp == p * p,
                mm == 0x1_0000_0000,
        ;
        let c = mm / pp;
        assert(c * pp == mm) by (nonlinear_arith)
            requires
                pp == 4 || pp == 16 || pp == 256 || pp == 65536 || pp == mm,
                mm == 0x1_0000_0000,
                c == mm / pp,
        ;
        let q = (n * i - 1) / p;
        assert(n * i - 1 == q * p) by (nonlinear_arith)
            requires
                (n * i - 1) % p == 0,
                q == (n * i - 1) / p,
                p >= 2,
        ;
        lemma_newton(n, i, p, q, next as int, k, c);
        let w = n * k * c - q * q;
        vstd::arithmetic::div_mod::lemma_mod_multiples_basic(w, pp);
    }
    next
}

fn negative_inverse(n0: u32) -> (x: u32)
    requires
        n0 % 2 == 1,
    ensures
        is_n0inv(n0 as nat, x),
{
    let i0: u32 = 1;
    assert(inverse_to(n0 as int, 1, 2));
    let i1: u32 = newton_step(n0, i0, Ghost(2));
    let i2: u32 = newton_step(n0, i1, Ghost(4));
    let i3: u32 = newton_step(n0, i2, Ghost(16));
    let i4: u32 = newton_step(n0, i3, Ghost(256));
    let i5: u32 = newton_step(n0, i4, Ghost(65536));
    let m: u64 = 0x1_0000_0000;
    let x: u32 = ((m - i5 as u64) % m) as u32;
    proof {
        let n = n0 as int;
        let v = i5 as int;
        let mm = 0x1_0000_0000int;
        assert((n * v - 1) % mm == 0);
        let q = (n * v - 1) / mm;
        assert(n * v - 1 == q * mm);
        if i5 == 0 {
            assert(n * 0 == 0) by (nonlinear_arith);
            assert(false);
        }
        assert(x == mm - v);
        assert(n * (mm - v) == n * mm - n * v) by (nonlinear_arith);
        assert(n * x + 1 == (n - q) * mm) by {
            assert((n - q) * mm == n * mm - q * mm) by (nonlinear_arith);
        }
        vstd::arithmetic::div_mod::lemma_mod_multiples_basic(n - q, mm);
    }
    x
}

/// An odd number has only one negative inverse modulo 2^32.
pub proof fn n0inv_is_unique(n: nat, x: u32, y: u32)
    requires
        is_n0inv(n, x),
        is_n0inv(n, y),
    ensures
        x == y,
{
    let m = 0x1_0000_0000int;
    let a = x as int;
    let b = y as int;
    let p = (n * a + 1) / m;
    let q = (n * b + 1) / m;
    assert(n * a + 1 == p * m);
    assert(n * b + 1 == q * m);
    // a = -a * (n * b) + a * q * m, and the other way round
    assert(a * (n * b) == b * (n * a)) by (nonlinear_arith);
    assert(a * (q * m - 1) == b * (p * m - 1));
    assert(a * (q * m - 1) == (a * q) * m - a) by (nonlinear_arith);
    assert(b * (p * m - 1) == (b * p) * m - b) by (nonlinear_arith);
    assert(a - b == (a * q - b * p) * m) by {
        assert((a * q - b * p) * m == (a * q) * m - (b * p) * m) by (nonlinear_arith);
    }
    let w = a * q - b * p;
    assert(w == 0) by (nonlinear_arith)
        requires
            a - b == w * m,
            m == 0x1_0000_0000,
            -m < a - b < m,
    ;
}

/// The binary form of a public key, or why it has none.
pub open spec fn encoding_error(k: PublicKeyModel) -> Option<Seq<char>> {
    if k.n.len() > ANDROID_PUBKEY_MODULUS_SIZE {
        Some("Modulus size exceeds 2048 bits"@)
    } else if le_value(k.n) % 2 == 0 {
        Some("Modulus must be odd"@)
    } else {
        None
    }
}

/// A run of bytes is the binary form of a public key.
pub open spec fn is_encoding(k: PublicKeyModel, buf: Seq<u8>) -> bool {
    exists|x: u32| #[trigger] is_n0inv(le_value(k.n), x) && buf == pubkey_binary(k, x)
}

fn padded(bytes: &[u8], size: usize) -> (r: Vec<u8>)
    requires
        bytes@.len() <= size,
    ensures
        r@ == le_bytes(le_value(bytes@), size as nat),
        r@.len() == size,
{
    let mut r = slice_to_vec(bytes);
    while r.len() < size
        invariant
            bytes@.len() <= r@.len() <= size,
            r@ == bytes@ + zeros((r@.len() - bytes@.len()) as nat),
        decreases size - r@.len(),
    {
        let ghost before = r@;
        r.push(0);
        assert(r@ =~= bytes@ + zeros((r@.len() - bytes@.len()) as nat));
    }
    proof {
        lemma_pad(bytes@, size as nat);
    }
    r
}

fn exponent_word(e: &[u8]) -> (r: u32)
    ensures
        r == short_exponent(e@),
{
    if e.len() >= 4 {
        proof {
            lemma_low_word(e@);
        }
        read_u32(e, 0)
    } else {
        let word = padded(e, 4);
        proof {
            reveal_with_fuel(pow, 5);
            lemma_pad(e@, 4);
            lemma_le_value_bound(e@);
            assert(word@.subrange(0, 4) =~= word@);
            lemma_pow_increases(256, e@.len(), 3);
            assert(pow(256, 3) == 0x100_0000);
        }
        read_u32(word.as_slice(), 0)
    }
}

/// Encode an RSA public key into Android binary RSAPublicKey format (524 bytes)
pub fn encode_android_pubkey_binary(public_key: &PublicKey) -> (r: Result<Vec<u8>, AuthError>)
    ensures
        match encoding_error(public_key@) {
            Some(m) => bytes_result(r) == Err::<Seq<u8>, AuthErrorModel>(
                AuthErrorModel::InvalidPublicKeyFormat(m),
            ),
            None => r matches Ok(v) && is_encoding(public_key@, v@) && v@.len()
                == ANDROID_PUBKEY_ENCODED_SIZE,
        },
{
    let n = public_key.n.as_slice();
    if n.len() > ANDROID_PUBKEY_MODULUS_SIZE {
        return Err(AuthError::InvalidPublicKeyFormat(owned("Modulus size exceeds 2048 bits")));
    }
    let modulus = padded(n, ANDROID_PUBKEY_MODULUS_SIZE);
    let n0: u32 = read_u32(modulus.as_slice(), 0);
    let ghost value = le_value(n@);
    let ghost high = le_value(modulus@.subrange(4, 256));
    proof {
        lemma_pad(n@, 256);
        lemma_low_word(modulus@);
        assert(value == n0 + 0x1_0000_0000 * high);
    }
    if n0 % 2 == 0 {
        return Err(AuthError::InvalidPublicKeyFormat(owned("Modulus must be odd")));
    }
    let n0inv: u32 = negative_inverse(n0);
    proof {
        let x = n0inv as int;
        let m = 0x1_0000_0000int;
        assert(value * x + 1 == (n0 * x + 1) + m * (high * x)) by (nonlinear_arith)
            requires
                value == n0 + m * high,
        ;
        vstd::arithmetic::div_mod::lemma_mod_multiples_vanish(high * x, n0 * x + 1, m);
        assert(is_n0inv(value, n0inv));
    }
    let rr_bytes = power_of_two_mod(4096, n);
    proof {
        assert(value > 0);
        lemma_le_value_bound(n@);
        lemma_pow_increases(256, n@.len(), 256);
        lemma_pow_positive(2, 4096);
        vstd::arithmetic::div_mod::lemma_mod_bound(pow(2, 4096), value as int);
        lemma_minimal_len(rr_bytes@, 256);
    }
    let rr = padded(rr_bytes.as_slice(), ANDROID_PUBKEY_MODULUS_SIZE);
    let exponent: u32 = exponent_word(public_key.e.as_slice());
    let mut buf: Vec<u8> = Vec::new();
    push_u32(&mut buf, ANDROID_PUBKEY_MODULUS_SIZE_WORDS);
    push_u32(&mut buf, n0inv);
    push_bytes(&mut buf, modulus.as_slice());
    push_bytes(&mut buf, rr.as_slice());
    push_u32(&mut buf, exponent);
    assert(buf@ =~= pubkey_binary(public_key@, n0inv));
    proof {
        lemma_le_bytes_len(ANDROID_PUBKEY_MODULUS_SIZE_WORDS as nat, 4);
        lemma_le_bytes_len(n0inv as nat, 4);
        lemma_le_bytes_len(exponent as nat, 4);
    }
    Ok(buf)
}

/// `s` without the zeros behind its last other byte, but for one byte.
pub open spec fn minimal(s: Seq<u8>) -> Seq<u8>
    decreases s.len(),
{
    if s.len() > 1 && s[s.len() - 1] == 0 {
        minimal(s.drop_last())
    } else {
        s
    }
}

fn to_minimal(s: &[u8]) -> (r: Vec<u8>)
    ensures
        r@ == minimal(s@),
{
    let mut r = slice_to_vec(s);
    while r.len() > 1 && r[r.len() - 1] == 0
        invariant
            minimal(r@) == minimal(s@),
        decreases r@.len(),
    {
        let ghost before = r@;
        r.pop();
        assert(r@ =~= before.drop_last());
    }
    r
}

proof fn lemma_minimal_of_padded(s: Seq<u8>, k: nat)
    requires
        is_minimal(s),
    ensures
        minimal(s + zeros(k)) == s,
    decreases k,
{
    let t = s + zeros(k);
    if k == 0 {
        assert(t =~= s);
    } else {
        assert(t.drop_last() =~= s + zeros((k - 1) as nat));
        lemma_minimal_of_padded(s, (k - 1) as nat);
    }
}

/// The public key in a run of bytes, or why there is none.
pub open spec fn decoded(buf: Seq<u8>) -> Result<PublicKeyModel, AuthErrorModel> {
    let n = buf.subrange(8, 264);
    let e = buf.subrange(520, 524);
    if buf.len() < ANDROID_PUBKEY_ENCODED_SIZE {
        Err(
            AuthErrorModel::InvalidPublicKeyFormat(
                "Buffer too short for RSAPublicKey: expected 524, got "@ + dec(buf.len()),
            ),
        )
    } else if u32_at(buf, 0) != ANDROID_PUBKEY_MODULUS_SIZE_WORDS {
        Err(
            AuthErrorModel::InvalidPublicKeyFormat(
                "Unsupported modulus size words: "@ + dec(u32_at(buf, 0) as nat),
            ),
        )
    } else {
        match refusal(le_value(n), le_value(e)) {
            Some(m) => Err(AuthErrorModel::Rsa(m)),
            None => Ok(PublicKeyModel { n: minimal(n), e: minimal(e) }),
        }
    }
}

/// What a result that is a public key says.
pub open spec fn key_result(r: Result<PublicKey, AuthError>) -> Result<
    PublicKeyModel,
    AuthErrorModel,
> {
    match r {
        Ok(k) => Ok(k@),
        Err(e) => Err(e@),
    }
}

/// Decode Android binary RSAPublicKey format (524 bytes). The inverse and the square of the
/// Montgomery radix are not looked at.
pub fn decode_android_pubkey_binary(buf: &[u8]) -> (r: Result<PublicKey, AuthError>)
    ensures
        key_result(r) == decoded(buf@),
{
    if buf.len() < ANDROID_PUBKEY_ENCODED_SIZE {
        let mut m = String::new();
        m.append("Buffer too short for RSAPublicKey: expected 524, got ");
        m.append(decimal(buf.len() as u64).as_str());
        assert(m@ =~= "Buffer too short for RSAPublicKey: expected 524, got "@ + dec(buf@.len()));
        return Err(AuthError::InvalidPublicKeyFormat(m));
    }
    let words: u32 = read_u32(buf, 0);
    if words != ANDROID_PUBKEY_MODULUS_SIZE_WORDS {
        let mut m = String::new();
        m.append("Unsupported modulus size words: ");
        m.append(decimal(words as u64).as_str());
        assert(m@ =~= "Unsupported modulus size words: "@ + dec(words as nat));
        return Err(AuthError::InvalidPublicKeyFormat(m));
    }
    let n = slice_subrange(buf, 8, 264);
    let e = slice_subrange(buf, 520, 524);
    match check_public_key(n, e) {
        Ok(()) => Ok(PublicKey { n: to_minimal(n), e: to_minimal(e) }),
        Err(m) => Err(AuthError::Rsa(m)),
    }
}

/// A public key that the binary form can carry: at most 2048 bits of modulus and 32 bits of
/// exponent.
pub open spec fn fits_binary(k: PublicKeyModel) -> bool {
    is_public_key(k) && k.n.len() <= 256 && le_value(k.e) < 0x1_0000_0000
}

proof fn lemma_size()
    ensures
        pow(256, 256) < pow(2, 4096),
{
    reveal_with_fuel(pow, 9);
    assert(pow(2, 8) == 256);
    lemma_pow_multiplies(2, 8, 256);
    lemma_pow_strictly_increases(2, 2048, 4096);
}

/// Decoding the binary form of a public key, whatever follows it, gives the key back.
pub proof fn pubkey_round_trip(k: PublicKeyModel, buf: Seq<u8>, rest: Seq<u8>)
    requires
        fits_binary(k),
        is_encoding(k, buf),
    ensures
        encoding_error(k) is None,
        buf.len() == 524,
        decoded(buf + rest) == Ok::<PublicKeyModel, AuthErrorModel>(k),
{
    let x = choose|x: u32| #[trigger] is_n0inv(le_value(k.n), x) && buf == pubkey_binary(k, x);
    let n = le_value(k.n);
    let e = short_exponent(k.e);
    assert(e == le_value(k.e));
    lemma_u32_round_trip(64);
    lemma_u32_round_trip(x);
    lemma_u32_round_trip(e);
    lemma_le_bytes_len(n, 256);
    lemma_le_bytes_len(montgomery_square(n), 256);
    let b = buf + rest;
    assert(b.subrange(0, 4) =~= le_bytes(64, 4));
    assert(b.subrange(8, 264) =~= le_bytes(n, 256));
    assert(b.subrange(520, 524) =~= le_bytes(e as nat, 4));
    lemma_pad(k.n, 256);
    reveal_with_fuel(pow, 5);
    assert(pow(256, 4) == 0x1_0000_0000);
    lemma_minimal_len(k.e, 4);
    lemma_pad(k.e, 4);
    lemma_minimal_of_padded(k.n, (256 - k.n.len()) as nat);
    lemma_minimal_of_padded(k.e, (4 - k.e.len()) as nat);
    lemma_le_value_bound(k.n);
    lemma_pow_increases(256, k.n.len(), 256);
    lemma_size();
}

/// The binary form of a key: the count of its words, the number by which the modulus is brought
/// to minus one, the modulus, the square of the radix in it, and the exponent.
pub proof fn encoded_key_is_laid_out(k: PublicKeyModel, buf: Seq<u8>)
    requires
        fits_binary(k),
        is_encoding(k, buf),
    ensures
        buf.len() == 524,
        word_at(buf, 0) == 64,
        (le_value(k.n) * word_at(buf, 4) + 1) % 0x1_0000_0000 == 0,
        le_value(buf.subrange(8, 264)) == le_value(k.n),
        le_value(buf.subrange(264, 520)) == pow(2, 4096) % (le_value(k.n) as int),
        word_at(buf, 520) == le_value(k.e),
{
    let x = choose|x: u32| #[trigger] is_n0inv(le_value(k.n), x) && buf == pubkey_binary(k, x);
    let n = le_value(k.n);
    let e = short_exponent(k.e);
    let rr = montgomery_square(n);
    assert(e == le_value(k.e));
    lemma_u32_round_trip(64);
    lemma_u32_round_trip(x);
    lemma_u32_round_trip(e);
    lemma_le_bytes_len(n, 256);
    lemma_le_bytes_len(rr, 256);
    lemma_le_value_bound(k.n);
    lemma_pow_increases(256, k.n.len(), 256);
    lemma_pow_positive(2, 4096);
    assert(0 <= pow(2, 4096) % (n as int) < n);
    lemma_le_round_trip(n, 256);
    lemma_le_round_trip(rr, 256);
    assert(buf.subrange(0, 4) =~= le_bytes(64, 4));
    assert(buf.subrange(4, 8) =~= le_bytes(x as nat, 4));
    assert(buf.subrange(8, 264) =~= le_bytes(n, 256));
    assert(buf.subrange(264, 520) =~= le_bytes(rr, 256));
    assert(buf.subrange(520, 524) =~= le_bytes(e as nat, 4));
    numbers_are_little_endian(buf, 0);
    numbers_are_little_endian(buf, 4);
    numbers_are_little_endian(buf, 520);
}

} // verus!
