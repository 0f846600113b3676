//! Strings as sequences of characters: building, comparing, splitting, trimming and
//! reading or writing numbers.

use vstd::prelude::*;
use vstd::slice::slice_subrange;
use vstd::utf8::{decode_utf8, encode_utf8, valid_utf8};

verus! {

/// `String::push` appends one character.
pub assume_specification[ String::push ](s: &mut String, c: char)
    ensures
        final(s)@ == old(s)@.push(c),
;

/// The views of a list of strings.
pub open spec fn string_views(v: Seq<String>) -> Seq<Seq<char>> {
    Seq::new(v.len(), |i: int| v[i]@)
}

/// The views of a list of character vectors.
pub open spec fn char_views(v: Seq<Vec<char>>) -> Seq<Seq<char>> {
    Seq::new(v.len(), |i: int| v[i]@)
}

/// The view of an optional string.
pub open spec fn opt_view(o: Option<String>) -> Option<Seq<char>> {
    match o {
        Some(s) => Some(s@),
        None => None,
    }
}

/// The characters of a string.
pub fn chars_of(s: &str) -> (v: Vec<char>)
    ensures
        v@ == s@,
{
    let mut v: Vec<char> = Vec::new();
    for c in it: s.chars()
        invariant
            v@ == it.seq().take(it.index()),
            it.seq() == s@,
    {
        v.push(c);
        assert(v@ == it.seq().take(it.index() + 1));
    }
    assert(v@ =~= s@);
    v
}

/// The string that a run of characters spells.
pub fn string_of(v: &[char]) -> (s: String)
    ensures
        s@ == v@,
{
    let mut s = String::new();
    let mut i: usize = 0;
    while i < v.len()
        invariant
            i <= v.len(),
            s@ == v@.take(i as int),
        decreases v.len() - i,
    {
        s.push(v[i]);
        i = i + 1;
        assert(s@ == v@.take(i as int));
    }
    assert(v@.take(v@.len() as int) =~= v@);
    s
}

/// A copy of a string slice.
pub fn owned(s: &str) -> (r: String)
    ensures
        r@ == s@,
{
    s.to_owned()
}

/// A string in UTF-8 determines its characters.
pub proof fn lemma_encode_injective(a: Seq<char>, b: Seq<char>)
    requires
        encode_utf8(a) == encode_utf8(b),
    ensures
        a == b,
{
    vstd::utf8::encode_utf8_decode_utf8(a);
    vstd::utf8::encode_utf8_decode_utf8(b);
}

/// Equality of two byte slices.
pub fn bytes_eq(a: &[u8], b: &[u8]) -> (r: bool)
    ensures
        r == (a@ == b@),
{
    if a.len() != b.len() {
        return false;
    }
    let mut i: usize = 0;
    while i < a.len()
        invariant
            i <= a.len(),
            a@.len() == b@.len(),
            forall|k: int| 0 <= k < i ==> a@[k] == b@[k],
        decreases a.len() - i,
    {
        if a[i] != b[i] {
            return false;
        }
        i = i + 1;
    }
    assert(a@ =~= b@);
    true
}

/// Equality of two strings.
pub fn str_eq(a: &str, b: &str) -> (r: bool)
    ensures
        r == (a@ == b@),
{
    let r = bytes_eq(a.as_bytes(), b.as_bytes());
    proof {
        if r {
            lemma_encode_injective(a@, b@);
        }
    }
    r
}

/// Equality of two runs of characters.
pub fn chars_eq(a: &[char], b: &[char]) -> (r: bool)
    ensures
        r == (a@ == b@),
{
    if a.len() != b.len() {
        return false;
    }
    let mut i: usize = 0;
    while i < a.len()
        invariant
            i <= a.len(),
            a@.len() == b@.len(),
            forall|k: int| 0 <= k < i ==> a@[k] == b@[k],
        decreases a.len() - i,
    {
        if a[i] != b[i] {
            return false;
        }
        i = i + 1;
    }
    assert(a@ =~= b@);
    true
}

/// `p` is a prefix of `s`.
pub open spec fn is_prefix(p: Seq<char>, s: Seq<char>) -> bool {
    p.len() <= s.len() && s.subrange(0, p.len() as int) == p
}

/// Whether `s` starts with `p`.
pub fn starts_with(s: &[char], p: &str) -> (r: bool)
    ensures
        r == is_prefix(p@, s@),
{
    let pc = chars_of(p);
    if pc.len() > s.len() {
        return false;
    }
    let head = vstd::slice::slice_subrange(s, 0, pc.len());
    chars_eq(head, pc.as_slice())
}

/// `p` is a suffix of `s`.
pub open spec fn is_suffix(p: Seq<char>, s: Seq<char>) -> bool {
    p.len() <= s.len() && s.subrange(s.len() - p.len(), s.len() as int) == p
}

/// Whether `s` ends with `p`.
pub fn ends_with(s: &[char], p: &str) -> (r: bool)
    ensures
        r == is_suffix(p@, s@),
{
    let pc = chars_of(p);
    if pc.len() > s.len() {
        return false;
    }
    let tail = vstd::slice::slice_subrange(s, s.len() - pc.len(), s.len());
    chars_eq(tail, pc.as_slice())
}

/// The index of the first `c` in `s` at or after `i`, or the length of `s`.
pub open spec fn find_from(s: Seq<char>, c: char, i: int) -> int
    decreases s.len() - i,
{
    if i < 0 || i >= s.len() {
        s.len() as int
    } else if s[i] == c {
        i
    } else {
        find_from(s, c, i + 1)
    }
}

/// What the first occurrence means.
pub proof fn lemma_find_from(s: Seq<char>, c: char, i: int)
    requires
        0 <= i <= s.len(),
    ensures
        i <= find_from(s, c, i) <= s.len(),
        find_from(s, c, i) < s.len() ==> s[find_from(s, c, i)] == c,
        forall|k: int| i <= k < find_from(s, c, i) ==> s[k] != c,
    decreases s.len() - i,
{
    if i < s.len() && s[i] != c {
        lemma_find_from(s, c, i + 1);
    }
}

/// Finds the first `c` at or after index `start`.
pub fn find_char(s: &[char], c: char, start: usize) -> (r: Option<usize>)
    requires
        start <= s@.len(),
    ensures
        match r {
            Some(i) => i == find_from(s@, c, start as int) && i < s@.len(),
            None => find_from(s@, c, start as int) == s@.len(),
        },
{
    let mut i: usize = start;
    while i < s.len()
        invariant
            start <= i <= s@.len(),
            find_from(s@, c, start as int) == find_from(s@, c, i as int),
        decreases s@.len() - i,
    {
        if s[i] == c {
            return Some(i);
        }
        i = i + 1;
    }
    None
}

/// The pieces of `s` between the occurrences of `c`.
pub open spec fn split(s: Seq<char>, c: char) -> Seq<Seq<char>>
    decreases s.len(),
{
    let i = find_from(s, c, 0);
    if 0 <= i < s.len() {
        seq![s.subrange(0, i)] + split(s.subrange(i + 1, s.len() as int), c)
    } else {
        seq![s]
    }
}

proof fn lemma_find_shift(s: Seq<char>, c: char, i: int, j: int)
    requires
        0 <= i <= j <= s.len(),
    ensures
        find_from(s.subrange(i, s.len() as int), c, j - i) == find_from(s, c, j) - i,
    decreases s.len() - j,
{
    if j < s.len() && s[j] != c {
        lemma_find_shift(s, c, i, j + 1);
    }
}

/// Splits at every `c`.
pub fn split_char(s: &[char], c: char) -> (r: Vec<Vec<char>>)
    ensures
        char_views(r@) == split(s@, c),
{
    let mut r: Vec<Vec<char>> = Vec::new();
    let mut start: usize = 0;
    let n: usize = s.len();
    assert(s@.subrange(0, s@.len() as int) =~= s@);
    assert(char_views(r@) + split(s@, c) =~= split(s@, c));
    loop
        invariant
            n == s@.len(),
            start <= n,
            char_views(r@) + split(s@.subrange(start as int, s@.len() as int), c) == split(s@, c),
        decreases s@.len() - start,
    {
        let ghost rest = s@.subrange(start as int, s@.len() as int);
        proof {
            lemma_find_shift(s@, c, start as int, start as int);
            lemma_find_from(s@, c, start as int);
        }
        match find_char(s, c, start) {
            Some(i) => {
                let ghost before = r@;
                let piece = vstd::slice::slice_to_vec(vstd::slice::slice_subrange(s, start, i));
                r.push(piece);
                proof {
                    assert(rest.subrange(0, i - start) =~= s@.subrange(start as int, i as int));
                    assert(rest.subrange(i - start + 1, rest.len() as int) =~= s@.subrange(
                        i + 1,
                        s@.len() as int,
                    ));
                    assert(char_views(r@) =~= char_views(before).push(piece@));
                    assert(char_views(r@) + split(s@.subrange(i + 1, s@.len() as int), c)
                        =~= char_views(before) + split(rest, c));
                }
                start = i + 1;
            },
            None => {
                let ghost before = r@;
                let piece = vstd::slice::slice_to_vec(
                    vstd::slice::slice_subrange(s, start, s.len()),
                );
                r.push(piece);
                proof {
                    assert(char_views(r@) =~= char_views(before) + seq![rest]);
                }
                return r;
            },
        }
    }
}

/// The Unicode property White_Space.
pub open spec fn is_white(c: char) -> bool {
    ||| '\u{9}' <= c <= '\u{d}'
    ||| c == ' '
    ||| c == '\u{85}'
    ||| c == '\u{a0}'
    ||| c == '\u{1680}'
    ||| '\u{2000}' <= c <= '\u{200a}'
    ||| c == '\u{2028}'
    ||| c == '\u{2029}'
    ||| c == '\u{202f}'
    ||| c == '\u{205f}'
    ||| c == '\u{3000}'
}

/// Whether a character is white space.
pub fn white(c: char) -> (r: bool)
    ensures
        r == is_white(c),
{
    ('\u{9}' <= c && c <= '\u{d}') || c == ' ' || c == '\u{85}' || c == '\u{a0}' || c == '\u{1680}'
        || ('\u{2000}' <= c && c <= '\u{200a}') || c == '\u{2028}' || c == '\u{2029}' || c
        == '\u{202f}' || c == '\u{205f}' || c == '\u{3000}'
}

/// `s` without its leading white space.
pub open spec fn trim_start(s: Seq<char>) -> Seq<char>
    decreases s.len(),
{
    if s.len() > 0 && is_white(s[0]) {
        trim_start(s.subrange(1, s.len() as int))
    } else {
        s
    }
}

/// `s` without its trailing white space.
pub open spec fn trim_end(s: Seq<char>) -> Seq<char>
    decreases s.len(),
{
    if s.len() > 0 && is_white(s[s.len() - 1]) {
        trim_end(s.subrange(0, s.len() - 1))
    } else {
        s
    }
}

/// `s` without the white space at its ends.
pub open spec fn trimmed(s: Seq<char>) -> Seq<char> {
    trim_end(trim_start(s))
}

/// Removes the white space at both ends.
pub fn trim(s: &[char]) -> (r: &[char])
    ensures
        r@ == trimmed(s@),
{
    let mut i: usize = 0;
    assert(s@.subrange(0, s@.len() as int) =~= s@);
    while i < s.len() && white(s[i])
        invariant
            i <= s@.len(),
            trim_start(s@) == trim_start(s@.subrange(i as int, s@.len() as int)),
        decreases s@.len() - i,
    {
        assert(s@.subrange(i as int, s@.len() as int).subrange(1, s@.len() - i)
            =~= s@.subrange(i + 1, s@.len() as int));
        i = i + 1;
    }
    let ghost t = trim_start(s@);
    assert(t == s@.subrange(i as int, s@.len() as int));
    let mut j: usize = s.len();
    while j > i && white(s[j - 1])
        invariant
            i <= j <= s@.len(),
            trim_end(t) == trim_end(s@.subrange(i as int, j as int)),
        decreases j,
    {
        assert(s@.subrange(i as int, j as int).subrange(0, j - i - 1) =~= s@.subrange(
            i as int,
            j - 1,
        ));
        j = j - 1;
    }
    vstd::slice::slice_subrange(s, i, j)
}

/// The digit that stands for `d` in base sixteen or less.
pub open spec fn digit_char(d: nat) -> char {
    if d < 10 {
        ('0' as nat + d) as char
    } else {
        ('a' as nat + d - 10) as char
    }
}

/// `n` in the given base, most significant digit first.
pub open spec fn digits(n: nat, base: nat) -> Seq<char>
    decreases n,
{
    if base < 2 || n < base {
        seq![digit_char(n)]
    } else {
        proof {
            assert(n / base < n) by (nonlinear_arith)
                requires
                    n >= base,
                    base >= 2,
            ;
        }
        digits(n / base, base).push(digit_char(n % base))
    }
}

/// `n` in decimal.
pub open spec fn dec(n: nat) -> Seq<char> {
    digits(n, 10)
}

/// A signed number in decimal.
pub open spec fn signed_dec(n: int) -> Seq<char> {
    if n < 0 {
        seq!['-'] + dec((-n) as nat)
    } else {
        dec(n as nat)
    }
}

/// `s` with zeros in front of it up to `width` characters.
pub open spec fn zero_pad(s: Seq<char>, width: nat) -> Seq<char>
    decreases width - s.len(),
{
    if s.len() >= width {
        s
    } else {
        zero_pad(seq!['0'] + s, width)
    }
}

fn digit(d: u8) -> (c: char)
    requires
        d < 16,
    ensures
        c == digit_char(d as nat),
{
    if d < 10 {
        (48u8 + d) as char
    } else {
        (87u8 + d) as char
    }
}

/// Writes `n` in the given base.
pub fn number(n: u64, base: u64) -> (s: String)
    requires
        2 <= base <= 16,
    ensures
        s@ == digits(n as nat, base as nat),
    decreases n,
{
    if n < base {
        let mut s = String::new();
        s.push(digit(n as u8));
        assert(s@ =~= seq![digit_char(n as nat)]);
        s
    } else {
        assert(n / base < n) by (nonlinear_arith)
            requires
                n >= base,
                base >= 2,
        ;
        assert(n % base < base) by (nonlinear_arith)
            requires
                base >= 2,
        ;
        let mut s = number(n / base, base);
        s.push(digit((n % base) as u8));
        s
    }
}

/// Writes `n` in decimal.
pub fn decimal(n: u64) -> (s: String)
    ensures
        s@ == dec(n as nat),
{
    number(n, 10)
}

/// Writes a signed number in decimal.
pub fn signed_decimal(n: i64) -> (s: String)
    ensures
        s@ == signed_dec(n as int),
{
    if n < 0 {
        let m: u64 = if n == i64::MIN {
            9223372036854775808u64
        } else {
            (-n) as u64
        };
        let mut s = String::new();
        s.push('-');
        let d = decimal(m);
        s.append(d.as_str());
        assert(s@ =~= signed_dec(n as int));
        s
    } else {
        decimal(n as u64)
    }
}

/// Writes `n` in the given base with zeros in front up to `width` characters.
pub fn padded(n: u64, base: u64, width: usize) -> (s: String)
    requires
        2 <= base <= 16,
    ensures
        s@ == zero_pad(digits(n as nat, base as nat), width as nat),
{
    let d = number(n, base);
    let body = chars_of(d.as_str());
    let mut r = chars_of(d.as_str());
    while r.len() < width
        invariant
            zero_pad(body@, width as nat) == zero_pad(r@, width as nat),
        decreases width - r@.len(),
    {
        let ghost before = r@;
        r.insert(0, '0');
        assert(r@ =~= seq!['0'] + before);
    }
    string_of(r.as_slice())
}

/// The value of a digit in base sixteen, either case; 16 for any other character.
pub open spec fn digit_value(c: char) -> nat {
    if '0' <= c <= '9' {
        (c as nat - '0' as nat) as nat
    } else if 'a' <= c <= 'f' {
        (c as nat - 'a' as nat + 10) as nat
    } else if 'A' <= c <= 'F' {
        (c as nat - 'A' as nat + 10) as nat
    } else {
        16
    }
}

/// `s` is a non-empty run of digits of the base.
pub open spec fn is_number(s: Seq<char>, base: nat) -> bool {
    s.len() > 0 && forall|i: int| 0 <= i < s.len() ==> digit_value(#[trigger] s[i]) < base
}

/// The number that a run of digits denotes.
pub open spec fn number_value(s: Seq<char>, base: nat) -> nat
    decreases s.len(),
{
    if s.len() == 0 {
        0
    } else {
        number_value(s.drop_last(), base) * base + digit_value(s.last())
    }
}

/// The number that `s` denotes, if it is a run of digits of the base and at most `max`.
pub open spec fn parse_number_spec(s: Seq<char>, base: nat, max: nat) -> Option<nat> {
    if is_number(s, base) && number_value(s, base) <= max {
        Some(number_value(s, base))
    } else {
        None
    }
}

fn hex_digit(c: char) -> (d: u8)
    ensures
        d as nat == digit_value(c),
{
    if '0' <= c && c <= '9' {
        (c as u32 - '0' as u32) as u8
    } else if 'a' <= c && c <= 'f' {
        (c as u32 - 'a' as u32 + 10) as u8
    } else if 'A' <= c && c <= 'F' {
        (c as u32 - 'A' as u32 + 10) as u8
    } else {
        16
    }
}

proof fn lemma_value_monotone(s: Seq<char>, i: int, base: nat)
    requires
        0 <= i <= s.len(),
        base >= 1,
    ensures
        number_value(s.take(i), base) <= number_value(s, base),
    decreases s.len() - i,
{
    if i < s.len() {
        lemma_value_monotone(s, i + 1, base);
        assert(s.take(i + 1).drop_last() =~= s.take(i));
        let v = number_value(s.take(i), base);
        assert(v * base >= v) by (nonlinear_arith)
            requires
                base >= 1,
                v >= 0,
        ;
    } else {
        assert(s.take(i) =~= s);
    }
}

/// Reads a run of digits whose value is at most `max`.
pub fn parse_number(s: &[char], base: u64, max: u64) -> (r: Option<u64>)
    requires
        2 <= base <= 16,
    ensures
        match r {
            Some(v) => parse_number_spec(s@, base as nat, max as nat) == Some(v as nat),
            None => parse_number_spec(s@, base as nat, max as nat) is None,
        },
{
    if s.len() == 0 {
        return None;
    }
    let mut v: u64 = 0;
    let mut i: usize = 0;
    while i < s.len()
        invariant
            2 <= base <= 16,
            i <= s@.len(),
            v <= max,
            v as nat == number_value(s@.take(i as int), base as nat),
            forall|k: int| 0 <= k < i ==> digit_value(#[trigger] s@[k]) < base,
        decreases s@.len() - i,
    {
        let d: u8 = hex_digit(s[i]);
        if d as u64 >= base {
            assert(digit_value(s@[i as int]) >= base);
            return None;
        }
        assert(s@.take(i + 1).drop_last() =~= s@.take(i as int));
        assert(v * base <= 0x10_0000_0000_0000_0000) by (nonlinear_arith)
            requires
                v <= 0xffff_ffff_ffff_ffff,
                base <= 16,
        ;
        let next: u128 = (v as u128) * (base as u128) + d as u128;
        assert(next as nat == number_value(s@.take(i + 1), base as nat));
        if next > max as u128 {
            proof {
                lemma_value_monotone(s@, i + 1, base as nat);
            }
            return None;
        }
        v = next as u64;
        i = i + 1;
    }
    assert(s@.take(i as int) =~= s@);
    Some(v)
}

/// The number that `s` denotes as an unsigned integer: a run of digits of the base, with or
/// without a plus sign in front, of a value of at most `max`.
pub open spec fn unsigned_spec(s: Seq<char>, base: nat, max: nat) -> Option<nat> {
    if s.len() > 0 && s[0] == '+' {
        parse_number_spec(s.skip(1), base, max)
    } else {
        parse_number_spec(s, base, max)
    }
}

/// Reads an unsigned integer of at most `max`.
pub fn parse_unsigned(s: &[char], base: u64, max: u64) -> (r: Option<u64>)
    requires
        2 <= base <= 16,
    ensures
        match r {
            Some(v) => unsigned_spec(s@, base as nat, max as nat) == Some(v as nat),
            None => unsigned_spec(s@, base as nat, max as nat) is None,
        },
{
    if s.len() > 0 && s[0] == '+' {
        let digits = slice_subrange(s, 1, s.len());
        assert(digits@ =~= s@.skip(1));
        parse_number(digits, base, max)
    } else {
        parse_number(s, base, max)
    }
}

proof fn lemma_digit_round_trip(d: nat)
    requires
        d < 16,
    ensures
        digit_value(digit_char(d)) == d,
{
}

/// Reading back a written number gives the number.
pub proof fn number_round_trip(n: nat, base: nat)
    requires
        2 <= base <= 16,
    ensures
        is_number(digits(n, base), base),
        number_value(digits(n, base), base) == n,
    decreases n,
{
    if n < base {
        lemma_digit_round_trip(n);
        let s = seq![digit_char(n)];
        assert(s.drop_last() =~= seq![]);
        assert(number_value(s.drop_last(), base) == 0);
        assert(0 * base == 0) by (nonlinear_arith);
    } else {
        assert(n / base < n) by (nonlinear_arith)
            requires
                n >= base,
                base >= 2,
        ;
        assert(n % base < base) by (nonlinear_arith)
            requires
                base >= 2,
        ;
        assert((n / base) * base + n % base == n) by (nonlinear_arith)
            requires
                base >= 2,
        ;
        number_round_trip(n / base, base);
        lemma_digit_round_trip(n % base);
        let s = digits(n, base);
        assert(s.drop_last() =~= digits(n / base, base));
    }
}

/// What `String::from_utf8_lossy` makes of bytes that are not valid UTF-8.
pub uninterp spec fn repaired_utf8(bytes: Seq<u8>) -> Seq<char>;

/// The characters of a run of bytes, with invalid UTF-8 repaired.
pub open spec fn lossy_text(bytes: Seq<u8>) -> Seq<char> {
    if valid_utf8(bytes) {
        decode_utf8(bytes)
    } else {
        repaired_utf8(bytes)
    }
}

/// `String::from_utf8_lossy`: the characters of valid UTF-8, and a fixed repair of anything
/// else.
#[verifier::external_body]
pub(crate) fn from_utf8_lossy(bytes: &[u8]) -> (s: String)
    ensures
        s@ == if valid_utf8(bytes@) {
            decode_utf8(bytes@)
        } else {
            repaired_utf8(bytes@)
        },
{
    String::from_utf8_lossy(bytes).to_string()
}

/// `String::from_utf8`: the characters of valid UTF-8, and an error for anything else.
#[verifier::external_body]
pub(crate) fn from_utf8(bytes: &[u8]) -> (r: Option<String>)
    ensures
        match r {
            Some(s) => valid_utf8(bytes@) && s@ == decode_utf8(bytes@),
            None => !valid_utf8(bytes@),
        },
{
    String::from_utf8(bytes.to_vec()).ok()
}

/// A text read back from its own UTF-8 is the text.
pub proof fn utf8_round_trip(s: Seq<char>)
    ensures
        valid_utf8(encode_utf8(s)),
        decode_utf8(encode_utf8(s)) == s,
        lossy_text(encode_utf8(s)) == s,
{
    vstd::utf8::encode_utf8_valid_utf8(s);
    vstd::utf8::encode_utf8_decode_utf8(s);
}

/// The UTF-8 of two texts one after the other.
pub proof fn lemma_encode_concat(a: Seq<char>, b: Seq<char>)
    ensures
        encode_utf8(a + b) == encode_utf8(a) + encode_utf8(b),
    decreases a.len(),
{
    if a.len() == 0 {
        assert(a + b =~= b);
        assert(encode_utf8(a + b) =~= encode_utf8(a) + encode_utf8(b));
    } else {
        assert((a + b).drop_first() =~= a.drop_first() + b);
        lemma_encode_concat(a.drop_first(), b);
        assert(encode_utf8(a + b) =~= encode_utf8(a) + encode_utf8(b));
    }
}

/// Every character of a text is white space.
pub open spec fn all_white(s: Seq<char>) -> bool {
    forall|i: int| 0 <= i < s.len() ==> is_white(#[trigger] s[i])
}

/// A text begins and ends with something else than white space, if it is not empty.
pub open spec fn is_tight(s: Seq<char>) -> bool {
    s.len() > 0 ==> !is_white(s[0]) && !is_white(s.last())
}

proof fn lemma_trim_start(a: Seq<char>, m: Seq<char>)
    requires
        all_white(a),
        m.len() > 0 ==> !is_white(m[0]),
    ensures
        trim_start(a + m) == m,
    decreases a.len(),
{
    if a.len() == 0 {
        assert(a + m =~= m);
    } else {
        let rest = a.subrange(1, a.len() as int);
        assert((a + m).subrange(1, (a + m).len() as int) =~= rest + m);
        assert(is_white(a[0]));
        assert forall|i: int| 0 <= i < rest.len() implies is_white(#[trigger] rest[i]) by {
            assert(rest[i] == a[i + 1]);
        }
        lemma_trim_start(rest, m);
    }
}

proof fn lemma_trim_end(m: Seq<char>, b: Seq<char>)
    requires
        all_white(b),
        m.len() > 0 ==> !is_white(m.last()),
    ensures
        trim_end(m + b) == m,
    decreases b.len(),
{
    if b.len() == 0 {
        assert(m + b =~= m);
    } else {
        let rest = b.subrange(0, b.len() - 1);
        assert((m + b).subrange(0, (m + b).len() - 1) =~= m + rest);
        assert((m + b)[(m + b).len() - 1] == b[b.len() - 1]);
        lemma_trim_end(m, rest);
    }
}

/// Trimming takes away the white space around a text, all of it, and nothing of the text.
pub proof fn trimming_keeps_the_middle(a: Seq<char>, m: Seq<char>, b: Seq<char>)
    requires
        all_white(a),
        all_white(b),
        is_tight(m),
    ensures
        trimmed(a + m + b) == m,
        trimmed(m) == m,
{
    assert(a + m + b =~= a + (m + b));
    if m.len() > 0 {
        lemma_trim_start(a, m + b);
    } else {
        assert(a + (m + b) =~= (a + b) + m);
        lemma_trim_start(a + b, m);
        assert(m + Seq::<char>::empty() =~= m);
        lemma_trim_end(m, Seq::empty());
    }
    if m.len() > 0 {
        lemma_trim_end(m, b);
    }
    let none = Seq::<char>::empty();
    assert(none + m =~= m);
    assert(m + none =~= m);
    lemma_trim_start(none, m);
    lemma_trim_end(m, none);
}

/// A text is white space, the text without white space around it, and white space.
pub proof fn trimming_leaves_white_space(s: Seq<char>) -> (r: (Seq<char>, Seq<char>))
    ensures
        all_white(r.0),
        all_white(r.1),
        is_tight(trimmed(s)),
        s == r.0 + trimmed(s) + r.1,
    decreases s.len(),
{
    if s.len() > 0 && is_white(s[0]) {
        let rest = s.subrange(1, s.len() as int);
        let (a, b) = trimming_leaves_white_space(rest);
        let t = trimmed(rest);
        assert(trimmed(s) == t);
        assert(s =~= seq![s[0]] + rest);
        assert(seq![s[0]] + (a + t + b) =~= (seq![s[0]] + a) + t + b);
        (seq![s[0]] + a, b)
    } else if s.len() > 0 && is_white(s.last()) {
        let rest = s.subrange(0, s.len() - 1);
        let (a, b) = trimming_leaves_white_space(rest);
        assert(trim_start(s) == s);
        assert(rest.len() > 0 ==> rest[0] == s[0]);
        assert(trim_start(rest) == rest);
        assert(trimmed(s) == trimmed(rest));
        let t = trimmed(rest);
        assert(s =~= rest.push(s.last()));
        assert((a + t + b).push(s.last()) =~= a + t + b.push(s.last()));
        (a, b.push(s.last()))
    } else {
        assert(s =~= Seq::<char>::empty() + trimmed(s) + Seq::<char>::empty());
        (Seq::empty(), Seq::empty())
    }
}

proof fn lemma_leading_zero(s: Seq<char>, base: nat)
    requires
        base > 0,
    ensures
        number_value(seq!['0'] + s, base) == number_value(s, base),
    decreases s.len(),
{
    let z = seq!['0'] + s;
    if s.len() == 0 {
        assert(z.drop_last() =~= Seq::<char>::empty());
        assert(number_value(z.drop_last(), base) == 0);
        assert(0 * base == 0) by (nonlinear_arith);
    } else {
        assert(z.drop_last() =~= seq!['0'] + s.drop_last());
        lemma_leading_zero(s.drop_last(), base);
    }
}

/// Zeros in front fill a number up to its width, and leave its value as it is.
pub proof fn padding_keeps_the_value(s: Seq<char>, width: nat, base: nat)
    requires
        base > 0,
        is_number(s, base),
    ensures
        is_number(zero_pad(s, width), base),
        number_value(zero_pad(s, width), base) == number_value(s, base),
        zero_pad(s, width).len() == if s.len() < width {
            width
        } else {
            s.len()
        },
    decreases width - s.len(),
{
    if s.len() < width {
        let z = seq!['0'] + s;
        assert forall|i: int| 0 <= i < z.len() implies digit_value(#[trigger] z[i]) < base by {
            if i > 0 {
                assert(z[i] == s[i - 1]);
            }
        }
        lemma_leading_zero(s, base);
        padding_keeps_the_value(z, width, base);
    }
}

/// The parts with a character between each two.
pub open spec fn joined(parts: Seq<Seq<char>>, c: char) -> Seq<char>
    decreases parts.len(),
{
    if parts.len() == 0 {
        Seq::empty()
    } else if parts.len() == 1 {
        parts[0]
    } else {
        parts[0] + seq![c] + joined(parts.skip(1), c)
    }
}

/// The parts of a text put together again are the text, and no part holds what they were split at.
pub proof fn splitting_is_undone_by_joining(s: Seq<char>, c: char)
    ensures
        split(s, c).len() > 0,
        joined(split(s, c), c) == s,
        forall|i: int| 0 <= i < split(s, c).len() ==> !(#[trigger] split(s, c)[i]).contains(c),
    decreases s.len(),
{
    let i = find_from(s, c, 0);
    lemma_find_from(s, c, 0);
    if i < s.len() {
        let rest = s.subrange(i + 1, s.len() as int);
        splitting_is_undone_by_joining(rest, c);
        let parts = split(s, c);
        assert(parts.skip(1) =~= split(rest, c));
        assert(s =~= s.subrange(0, i) + seq![c] + rest);
        assert forall|k: int| 0 <= k < parts.len() implies !(#[trigger] parts[k]).contains(c) by {
            if k > 0 {
                assert(parts[k] == split(rest, c)[k - 1]);
            }
        }
    }
}

/// The first place of a character.
pub proof fn lemma_find_at(s: Seq<char>, c: char, i: int, e: int)
    requires
        0 <= i <= e < s.len(),
        s[e] == c,
        forall|k: int| i <= k < e ==> #[trigger] s[k] != c,
    ensures
        find_from(s, c, i) == e,
    decreases e - i,
{
    if i < e {
        lemma_find_at(s, c, i + 1, e);
    }
}

/// Parts that were joined are taken apart again.
pub proof fn joining_is_undone_by_splitting(parts: Seq<Seq<char>>, c: char)
    requires
        parts.len() > 0,
        forall|i: int| 0 <= i < parts.len() ==> !(#[trigger] parts[i]).contains(c),
    ensures
        split(joined(parts, c), c) == parts,
    decreases parts.len(),
{
    let s = joined(parts, c);
    let head = parts[0];
    assert(!parts[0].contains(c));
    if parts.len() == 1 {
        lemma_find_from(s, c, 0);
        if find_from(s, c, 0) < s.len() {
            assert(s.contains(c));
        }
        assert(split(s, c) =~= parts);
    } else {
        let left = parts.skip(1);
        let rest = joined(left, c);
        assert(s == head + seq![c] + rest);
        assert forall|k: int| 0 <= k < head.len() implies #[trigger] s[k] != c by {
            assert(s[k] == head[k]);
        }
        lemma_find_at(s, c, 0, head.len() as int);
        assert(s.subrange(0, head.len() as int) =~= head);
        assert(s.subrange(head.len() as int + 1, s.len() as int) =~= rest);
        assert forall|i: int| 0 <= i < left.len() implies !(#[trigger] left[i]).contains(c) by {
            assert(left[i] == parts[i + 1]);
        }
        joining_is_undone_by_splitting(left, c);
        assert(seq![head] + left =~= parts);
    }
}

} // verus!
