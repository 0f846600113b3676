//! Bytes as a text in base 64.

use base64::Engine;
use vstd::prelude::*;

verus! {

/// The character for six bits.
pub open spec fn base64_char(n: int) -> char {
    if n < 26 {
        ('A' as int + n) as char
    } else if n < 52 {
        ('a' as int + (n - 26)) as char
    } else if n < 62 {
        ('0' as int + (n - 52)) as char
    } else if n == 62 {
        '+'
    } else {
        '/'
    }
}

/// A character of base 64.
pub open spec fn is_base64_char(c: char) -> bool {
    'A' <= c <= 'Z' || 'a' <= c <= 'z' || '0' <= c <= '9' || c == '+' || c == '/' || c == '='
}

/// Four characters for the first three bytes, or for as many as there are, filled up with `=`.
pub open spec fn base64_group(b: Seq<u8>) -> Seq<char> {
    let x = b[0] as int;
    let y: int = if b.len() > 1 {
        b[1] as int
    } else {
        0
    };
    let z: int = if b.len() > 2 {
        b[2] as int
    } else {
        0
    };
    seq![
        base64_char(x / 4),
        base64_char(x % 4 * 16 + y / 16),
        if b.len() > 1 {
            base64_char(y % 16 * 4 + z / 64)
        } else {
            '='
        },
        if b.len() > 2 {
            base64_char(z % 64)
        } else {
            '='
        },
    ]
}

/// Bytes in base 64: four characters for every three bytes.
pub open spec fn base64_text(bytes: Seq<u8>) -> Seq<char>
    decreases bytes.len(),
{
    if bytes.len() == 0 {
        Seq::empty()
    } else if bytes.len() <= 3 {
        base64_group(bytes)
    } else {
        base64_group(bytes) + base64_text(bytes.skip(3))
    }
}

proof fn lemma_chars_differ(m: int, n: int)
    requires
        0 <= m < 64,
        0 <= n < 64,
    ensures
        base64_char(m) == base64_char(n) ==> m == n,
        base64_char(m) != '=',
        is_base64_char(base64_char(m)),
{
}

/// Base 64 is made of letters, digits, `+`, `/` and `=`.
pub proof fn base64_has_its_characters(bytes: Seq<u8>)
    ensures
        forall|i: int|
            0 <= i < base64_text(bytes).len() ==> is_base64_char(
                #[trigger] base64_text(bytes)[i],
            ),
    decreases bytes.len(),
{
    if bytes.len() > 0 {
        let group = base64_group(bytes);
        let text = base64_text(bytes);
        let rest = base64_text(bytes.skip(3));
        if bytes.len() > 3 {
            base64_has_its_characters(bytes.skip(3));
        }
        assert forall|i: int| 0 <= i < text.len() implies is_base64_char(#[trigger] text[i]) by {
            if i >= 4 {
                assert(text[i] == rest[i - 4]);
            } else {
                assert(text[i] == group[i]);
            }
        }
    }
}

/// A group tells its bytes.
proof fn lemma_groups_differ(a: Seq<u8>, b: Seq<u8>)
    requires
        a.len() > 0,
        b.len() > 0,
        base64_group(a) == base64_group(b),
    ensures
        a.len() == b.len() || a.len() >= 3 && b.len() >= 3,
        a[0] == b[0],
        a.len() > 1 ==> a[1] == b[1],
        a.len() > 2 ==> a[2] == b[2],
{
    let g = base64_group(a);
    let h = base64_group(b);
    let x = a[0] as int;
    let u = b[0] as int;
    let y: int = if a.len() > 1 {
        a[1] as int
    } else {
        0
    };
    let v: int = if b.len() > 1 {
        b[1] as int
    } else {
        0
    };
    let z: int = if a.len() > 2 {
        a[2] as int
    } else {
        0
    };
    let w: int = if b.len() > 2 {
        b[2] as int
    } else {
        0
    };
    assert(g[0] == h[0] && g[1] == h[1] && g[2] == h[2] && g[3] == h[3]);
    lemma_chars_differ(x / 4, u / 4);
    lemma_chars_differ(x % 4 * 16 + y / 16, u % 4 * 16 + v / 16);
    lemma_chars_differ(y % 16 * 4 + z / 64, v % 16 * 4 + w / 64);
    lemma_chars_differ(v % 16 * 4 + w / 64, y % 16 * 4 + z / 64);
    lemma_chars_differ(z % 64, w % 64);
    lemma_chars_differ(w % 64, z % 64);
}

/// Different bytes are different in base 64.
pub proof fn base64_tells_bytes_apart(a: Seq<u8>, b: Seq<u8>)
    requires
        base64_text(a) == base64_text(b),
    ensures
        a == b,
    decreases a.len(),
{
    if a.len() > 0 && b.len() > 0 {
        assert(base64_text(a).take(4) =~= base64_group(a));
        assert(base64_text(b).take(4) =~= base64_group(b));
        lemma_groups_differ(a, b);
        if a.len() > 3 {
            assert(base64_text(a).skip(4) =~= base64_text(a.skip(3)));
        } else {
            assert(base64_text(a).skip(4) =~= Seq::<char>::empty());
        }
        if b.len() > 3 {
            assert(base64_text(b).skip(4) =~= base64_text(b.skip(3)));
        } else {
            assert(base64_text(b).skip(4) =~= Seq::<char>::empty());
        }
        if a.len() > 3 {
            assert(base64_group(a.skip(3)).len() == 4);
            assert(base64_text(a.skip(3)).len() > 0);
        }
        if b.len() > 3 {
            assert(base64_group(b.skip(3)).len() == 4);
            assert(base64_text(b.skip(3)).len() > 0);
        }
        if a.len() > 3 && b.len() > 3 {
            base64_tells_bytes_apart(a.skip(3), b.skip(3));
            assert forall|i: int| 3 <= i < a.len() implies a[i] == b[i] by {
                assert(a.skip(3)[i - 3] == b.skip(3)[i - 3]);
            }
            assert(a.skip(3).len() == b.skip(3).len());
        }
        assert(a =~= b);
    } else {
        if a.len() > 0 {
            assert(base64_group(a).len() == 4);
            assert(base64_text(a).len() >= 4);
            assert(base64_text(b).len() == 0);
        }
        if b.len() > 0 {
            assert(base64_group(b).len() == 4);
            assert(base64_text(b).len() >= 4);
            assert(base64_text(a).len() == 0);
        }
        assert(a =~= b);
    }
}

/// What `STANDARD.decode` of the base64 crate says of a text that is not base 64.
pub uninterp spec fn base64_refusal(text: Seq<char>) -> Seq<char>;

/// The bytes that a text is the base 64 of, or why there are none.
pub open spec fn base64_bytes(text: Seq<char>) -> Result<Seq<u8>, Seq<char>> {
    if exists|b: Seq<u8>| #[trigger] base64_text(b) == text {
        Ok(choose|b: Seq<u8>| #[trigger] base64_text(b) == text)
    } else {
        Err(base64_refusal(text))
    }
}

/// What a result of decoding says.
pub open spec fn decode_result(r: Result<Vec<u8>, String>) -> Result<Seq<u8>, Seq<char>> {
    match r {
        Ok(v) => Ok(v@),
        Err(m) => Err(m@),
    }
}

/// Decoding gives the bytes back.
pub proof fn base64_round_trip(bytes: Seq<u8>)
    ensures
        base64_bytes(base64_text(bytes)) == Ok::<Seq<u8>, Seq<char>>(bytes),
{
    let text = base64_text(bytes);
    let b = choose|b: Seq<u8>| #[trigger] base64_text(b) == text;
    base64_tells_bytes_apart(b, bytes);
}

/// `STANDARD.encode` of the base64 crate: the bytes in base 64, with the alphabet of RFC 4648 and
/// filled up with `=`. The length of the text has to fit into memory.
#[verifier::external_body]
pub(crate) fn base64_encode(bytes: &[u8]) -> (r: String)
    requires
        bytes@.len() <= 0x1000_0000,
    ensures
        r@ == base64_text(bytes@),
{
    base64::engine::general_purpose::STANDARD.encode(bytes)
}

/// `STANDARD.decode` of the base64 crate: the bytes of which the text is the base 64. Every other
/// text is refused, also one that lacks its `=` or has bits set that belong to no byte. The text of
/// the refusal is a function of the text.
#[verifier::external_body]
fn standard_decode(text: &str) -> (r: Result<Vec<u8>, String>)
    ensures
        match r {
            Ok(v) => base64_text(v@) == text@,
            Err(m) => m@ == base64_refusal(text@) && forall|b: Seq<u8>| #[trigger]
                base64_text(b) != text@,
        },
{
    base64::engine::general_purpose::STANDARD.decode(text).map_err(|e| e.to_string())
}

/// Reads a text in base 64.
pub fn base64_decode(text: &str) -> (r: Result<Vec<u8>, String>)
    ensures
        decode_result(r) == base64_bytes(text@),
{
    match standard_decode(text) {
        Ok(v) => {
            proof {
                base64_round_trip(v@);
            }
            Ok(v)
        },
        Err(m) => Err(m),
    }
}

} // verus!
