//! The framing between the ADB host server and its clients: a run of bytes behind its length
//! in four hexadecimal digits, and the status words OKAY and FAIL.

use crate::bytes::push_bytes;
use crate::text::{
    chars_of, digits, from_utf8, is_number, lossy_text, number_round_trip, number_value, padded,
    parse_unsigned, unsigned_spec, zero_pad,
};
use vstd::prelude::*;
use vstd::utf8::{decode_utf8, encode_utf8, is_ascii_chars, valid_utf8};

verus! {

/// A length in four hexadecimal digits, or more where it needs more.
pub open spec fn hex_length(n: nat) -> Seq<char> {
    zero_pad(digits(n, 16), 4)
}

/// A run of bytes behind its length.
pub open spec fn framed(data: Seq<u8>) -> Seq<u8> {
    encode_utf8(hex_length(data.len())) + data
}

/// The status word of success.
pub open spec fn okay_word() -> Seq<u8> {
    seq![79u8, 75u8, 65u8, 89u8]
}

/// The status word of failure.
pub open spec fn fail_word() -> Seq<u8> {
    seq![70u8, 65u8, 73u8, 76u8]
}

/// Puts a run of bytes behind its length.
pub fn frame(data: &[u8]) -> (r: Vec<u8>)
    ensures
        r@ == framed(data@),
{
    let length = padded(data.len() as u64, 16, 4);
    let mut out: Vec<u8> = Vec::new();
    push_bytes(&mut out, length.as_str().as_bytes());
    push_bytes(&mut out, data);
    assert(out@ =~= framed(data@));
    out
}

/// The answer that a request succeeded.
pub fn okay() -> (r: Vec<u8>)
    ensures
        r@ == okay_word(),
{
    let mut out: Vec<u8> = Vec::new();
    out.push(79u8);
    out.push(75u8);
    out.push(65u8);
    out.push(89u8);
    assert(out@ =~= okay_word());
    out
}

/// The answer that a request succeeded, with what was asked for.
pub fn okay_with(data: &[u8]) -> (r: Vec<u8>)
    ensures
        r@ == okay_word() + framed(data@),
{
    let mut out = okay();
    let body = frame(data);
    push_bytes(&mut out, body.as_slice());
    out
}

/// The answer that a request failed, with the reason.
pub fn fail_with(reason: &str) -> (r: Vec<u8>)
    ensures
        r@ == fail_word() + framed(encode_utf8(reason@)),
{
    let mut out: Vec<u8> = Vec::new();
    out.push(70u8);
    out.push(65u8);
    out.push(73u8);
    out.push(76u8);
    assert(out@ =~= fail_word());
    let body = frame(reason.as_bytes());
    push_bytes(&mut out, body.as_slice());
    out
}

/// What the bytes in the place of a length say.
#[derive(Debug, PartialEq, Eq)]
pub enum LengthPrefix {
    /// They are not text.
    NotText,
    /// They are not a number.
    NotNumber(String),
    /// They are this number.
    Length(usize),
}

/// What a [`LengthPrefix`] says.
pub enum LengthModel {
    NotText,
    NotNumber(Seq<char>),
    Length(nat),
}

impl View for LengthPrefix {
    type V = LengthModel;

    open spec fn view(&self) -> LengthModel {
        match *self {
            LengthPrefix::NotText => LengthModel::NotText,
            LengthPrefix::NotNumber(s) => LengthModel::NotNumber(s@),
            LengthPrefix::Length(n) => LengthModel::Length(n as nat),
        }
    }
}

/// What the bytes in the place of a length say.
pub open spec fn length_in(b: Seq<u8>) -> LengthModel {
    if !valid_utf8(b) {
        LengthModel::NotText
    } else {
        match unsigned_spec(decode_utf8(b), 16, usize::MAX as nat) {
            Some(n) => LengthModel::Length(n),
            None => LengthModel::NotNumber(decode_utf8(b)),
        }
    }
}

/// Reads the bytes in the place of a length.
pub fn read_length(b: &[u8]) -> (r: LengthPrefix)
    ensures
        r@ == length_in(b@),
{
    match from_utf8(b) {
        None => LengthPrefix::NotText,
        Some(s) => {
            let chars = chars_of(s.as_str());
            match parse_unsigned(chars.as_slice(), 16, usize::MAX as u64) {
                Some(n) => LengthPrefix::Length(n as usize),
                None => LengthPrefix::NotNumber(s),
            }
        },
    }
}

proof fn lemma_zero_pad(s: Seq<char>, width: nat)
    requires
        is_number(s, 16),
    ensures
        is_number(zero_pad(s, width), 16),
        number_value(zero_pad(s, width), 16) == number_value(s, 16),
        zero_pad(s, width).len() == if s.len() >= width {
            s.len()
        } else {
            width
        },
    decreases width - s.len(),
{
    if s.len() < width {
        let t = seq!['0'] + s;
        assert forall|i: int| 0 <= i < t.len() implies crate::text::digit_value(#[trigger] t[i])
            < 16 by {
            if i > 0 {
                assert(t[i] == s[i - 1]);
            }
        }
        lemma_zero_in_front(s);
        lemma_zero_pad(t, width);
    }
}

proof fn lemma_zero_in_front(s: Seq<char>)
    ensures
        number_value(seq!['0'] + s, 16) == number_value(s, 16),
    decreases s.len(),
{
    let t = seq!['0'] + s;
    if s.len() == 0 {
        assert(t =~= seq!['0']);
        assert(t.drop_last() =~= Seq::<char>::empty());
        assert(number_value(t.drop_last(), 16) == 0);
    } else {
        assert(t.drop_last() =~= seq!['0'] + s.drop_last());
        assert(t.last() == s.last());
        lemma_zero_in_front(s.drop_last());
    }
}

proof fn lemma_digit_count(n: nat)
    requires
        n <= 0xffff,
    ensures
        digits(n, 16).len() <= 4,
{
    reveal_with_fuel(digits, 5);
}

/// The length of up to 65535 bytes takes four bytes, and reads back as that length.
pub proof fn length_round_trip(n: nat)
    requires
        n <= 0xffff,
    ensures
        encode_utf8(hex_length(n)).len() == 4,
        length_in(encode_utf8(hex_length(n))) == LengthModel::Length(n),
{
    let t = hex_length(n);
    number_round_trip(n, 16);
    lemma_digit_count(n);
    lemma_zero_pad(digits(n, 16), 4);
    assert forall|i: int| 0 <= i < t.len() implies '\0' <= #[trigger] t[i] <= '\u{7f}' by {
        assert(crate::text::digit_value(t[i]) < 16);
    }
    assert(is_ascii_chars(t));
    vstd::utf8::is_ascii_chars_encode_utf8(t);
    crate::text::utf8_round_trip(t);
    assert(crate::text::digit_value(t[0]) < 16);
}

/// What a client reads after a request.
pub enum ReplyModel {
    /// The request succeeded.
    Okay,
    /// The connection is of no more use, for this reason.
    Refused(Seq<char>),
    /// The reply has not come to its end.
    Short,
}

/// The status at the front of a stream, and how long it is.
pub open spec fn status_in(s: Seq<u8>) -> (ReplyModel, int) {
    if s.len() < 4 {
        (ReplyModel::Short, 0)
    } else if s.take(4) == okay_word() {
        (ReplyModel::Okay, 4)
    } else if s.take(4) == fail_word() {
        if s.len() < 8 {
            (ReplyModel::Short, 0)
        } else {
            match length_in(s.subrange(4, 8)) {
                LengthModel::NotText => (
                    ReplyModel::Refused("Invalid hex length prefix in FAIL response"@),
                    8,
                ),
                LengthModel::NotNumber(t) => (
                    ReplyModel::Refused("Invalid hex length in FAIL response: "@ + t),
                    8,
                ),
                LengthModel::Length(n) => if s.len() < 8 + n {
                    (ReplyModel::Short, 0)
                } else {
                    (
                        ReplyModel::Refused(
                            "ADB server error: "@ + lossy_text(s.subrange(8, 8 + n as int)),
                        ),
                        8 + n as int,
                    )
                },
            }
        }
    } else {
        (
            ReplyModel::Refused("Unexpected ADB server status response: "@ + lossy_text(s.take(4))),
            4,
        )
    }
}

/// What a framed run of bytes at the front of a stream comes to.
pub enum PayloadModel {
    /// These bytes.
    Data(Seq<u8>),
    /// The length is none, for this reason.
    Refused(Seq<char>),
    /// The bytes have not all come.
    Short,
}

/// The framed run of bytes at the front of a stream.
pub open spec fn payload_in(s: Seq<u8>) -> PayloadModel {
    if s.len() < 4 {
        PayloadModel::Short
    } else {
        match length_in(s.take(4)) {
            LengthModel::NotText => PayloadModel::Refused("Invalid hex length prefix"@),
            LengthModel::NotNumber(t) => PayloadModel::Refused("Invalid hex length: "@ + t),
            LengthModel::Length(n) => if s.len() < 4 + n {
                PayloadModel::Short
            } else {
                PayloadModel::Data(s.subrange(4, 4 + n as int))
            },
        }
    }
}

/// What was framed is read back, as long as its length has four digits.
pub proof fn framed_is_read_back(data: Seq<u8>, rest: Seq<u8>)
    requires
        data.len() <= 0xffff,
    ensures
        payload_in(framed(data) + rest) == PayloadModel::Data(data),
{
    length_round_trip(data.len());
    let s = framed(data) + rest;
    assert(s.take(4) =~= encode_utf8(hex_length(data.len())));
    assert(s.subrange(4, 4 + data.len() as int) =~= data);
}

/// A client learns the reason that a server gives for a failure.
pub proof fn failure_reason_is_read_back(reason: Seq<char>, rest: Seq<u8>)
    requires
        encode_utf8(reason).len() <= 0xffff,
    ensures
        status_in(fail_word() + framed(encode_utf8(reason)) + rest).0 == ReplyModel::Refused(
            "ADB server error: "@ + reason,
        ),
{
    let bytes = encode_utf8(reason);
    length_round_trip(bytes.len());
    crate::text::utf8_round_trip(reason);
    let s = fail_word() + framed(bytes) + rest;
    assert(fail_word()[0] != okay_word()[0]);
    assert(s.take(4) =~= fail_word());
    assert(s.subrange(4, 8) =~= encode_utf8(hex_length(bytes.len())));
    assert(s.subrange(8, 8 + bytes.len() as int) =~= bytes);
}

/// A client takes the answer that a request succeeded for what it is.
pub proof fn success_is_read_back(rest: Seq<u8>)
    ensures
        status_in(okay_word() + rest) == (ReplyModel::Okay, 4int),
{
    assert((okay_word() + rest).take(4) =~= okay_word());
}

} // verus!
