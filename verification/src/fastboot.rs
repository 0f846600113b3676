//! Talking to a bootloader: commands, replies, and the flows made of them.

use crate::text::{
    all_white, chars_of, dec, decimal, digit_value, digits, from_utf8_lossy, is_number, is_prefix, is_tight, is_white,
    lossy_text, number_round_trip, number_value, owned, padded, padding_keeps_the_value, parse_unsigned, starts_with, trim,
    trimmed, trimming_keeps_the_middle, unsigned_spec, utf8_round_trip, zero_pad,
};
use vstd::prelude::*;
use vstd::slice::slice_subrange;
use vstd::utf8::encode_utf8;

verus! {

/// What a bootloader replies.
#[derive(Debug, Clone, PartialEq, Eq)]
pub enum FastbootResponse {
    /// Done.
    Okay(String),
    /// Not done, for this reason.
    Fail(String),
    /// Ready for, or about to send, this many bytes.
    Data(u32),
    /// A remark.
    Info(String),
    /// A remark without a line of its own.
    Text(String),
}

/// What a [`FastbootResponse`] says.
pub enum ResponseModel {
    Okay(Seq<char>),
    Fail(Seq<char>),
    Data(u32),
    Info(Seq<char>),
    Text(Seq<char>),
}

impl View for FastbootResponse {
    type V = ResponseModel;

    open spec fn view(&self) -> ResponseModel {
        match *self {
            FastbootResponse::Okay(s) => ResponseModel::Okay(s@),
            FastbootResponse::Fail(s) => ResponseModel::Fail(s@),
            FastbootResponse::Data(n) => ResponseModel::Data(n),
            FastbootResponse::Info(s) => ResponseModel::Info(s@),
            FastbootResponse::Text(s) => ResponseModel::Text(s@),
        }
    }
}

/// The reply in a packet: four letters that tell its kind, and what it says.
pub open spec fn response_in(p: Seq<u8>) -> Option<ResponseModel> {
    if p.len() < 4 {
        None
    } else {
        let word = p.take(4);
        let text = lossy_text(p.skip(4));
        if word == seq![79u8, 75u8, 65u8, 89u8] {
            Some(ResponseModel::Okay(text))
        } else if word == seq![70u8, 65u8, 73u8, 76u8] {
            Some(ResponseModel::Fail(text))
        } else if word == seq![68u8, 65u8, 84u8, 65u8] {
            match unsigned_spec(text, 16, u32::MAX as nat) {
                Some(n) => Some(ResponseModel::Data(n as u32)),
                None => None,
            }
        } else if word == seq![73u8, 78u8, 70u8, 79u8] {
            Some(ResponseModel::Info(text))
        } else if word == seq![84u8, 69u8, 88u8, 84u8] {
            Some(ResponseModel::Text(text))
        } else {
            None
        }
    }
}

/// Reads the reply in a packet.
pub fn parse_response(packet: &[u8]) -> (r: Option<FastbootResponse>)
    ensures
        match r {
            Some(x) => response_in(packet@) == Some(x@),
            None => response_in(packet@) is None,
        },
{
    if packet.len() < 4 {
        return None;
    }
    let (a, b, c, d) = (packet[0], packet[1], packet[2], packet[3]);
    let rest = slice_subrange(packet, 4, packet.len());
    assert(rest@ =~= packet@.skip(4));
    let text = from_utf8_lossy(rest);
    assert(packet@.take(4) =~= seq![a, b, c, d]);
    proof {
        let w = packet@.take(4);
        assert(w[0] == a && w[1] == b && w[2] == c && w[3] == d);
        let okay = seq![79u8, 75u8, 65u8, 89u8];
        let fail = seq![70u8, 65u8, 73u8, 76u8];
        let data = seq![68u8, 65u8, 84u8, 65u8];
        let info = seq![73u8, 78u8, 70u8, 79u8];
        let rem = seq![84u8, 69u8, 88u8, 84u8];
        assert(okay[0] == 79 && okay[1] == 75 && okay[2] == 65 && okay[3] == 89);
        assert(fail[0] == 70 && fail[1] == 65 && fail[2] == 73 && fail[3] == 76);
        assert(data[0] == 68 && data[1] == 65 && data[2] == 84 && data[3] == 65);
        assert(info[0] == 73 && info[1] == 78 && info[2] == 70 && info[3] == 79);
        assert(rem[0] == 84 && rem[1] == 69 && rem[2] == 88 && rem[3] == 84);
    }
    if a == 79 && b == 75 && c == 65 && d == 89 {
        Some(FastbootResponse::Okay(text))
    } else if a == 70 && b == 65 && c == 73 && d == 76 {
        Some(FastbootResponse::Fail(text))
    } else if a == 68 && b == 65 && c == 84 && d == 65 {
        let chars = chars_of(text.as_str());
        match parse_unsigned(chars.as_slice(), 16, u32::MAX as u64) {
            Some(n) => Some(FastbootResponse::Data(n as u32)),
            None => None,
        }
    } else if a == 73 && b == 78 && c == 70 && d == 79 {
        Some(FastbootResponse::Info(text))
    } else if a == 84 && b == 69 && c == 88 && d == 84 {
        Some(FastbootResponse::Text(text))
    } else {
        None
    }
}

/// The command that announces `size` bytes.
pub open spec fn download_command(size: u32) -> Seq<char> {
    "download:"@ + zero_pad(digits(size as nat, 16), 8)
}

/// The command that announces `size` bytes.
pub fn download(size: u32) -> (s: String)
    ensures
        s@ == download_command(size),
{
    let mut s = owned("download:");
    s.append(padded(size as u64, 16, 8).as_str());
    s
}

fn with_argument(head: &str, argument: &str) -> (s: String)
    ensures
        s@ == head@ + argument@,
{
    let mut s = owned(head);
    s.append(argument);
    s
}

/// The command that writes what was downloaded to a partition.
pub fn flash(partition: &str) -> (s: String)
    ensures
        s@ == "flash:"@ + partition@,
{
    with_argument("flash:", partition)
}

/// The command that erases a partition.
pub fn erase(partition: &str) -> (s: String)
    ensures
        s@ == "erase:"@ + partition@,
{
    with_argument("erase:", partition)
}

/// The command that asks for a variable.
pub fn getvar(name: &str) -> (s: String)
    ensures
        s@ == "getvar:"@ + name@,
{
    with_argument("getvar:", name)
}

/// The command that makes a slot the active one.
pub fn set_active(slot: &str) -> (s: String)
    ensures
        s@ == "set_active:"@ + slot@,
{
    with_argument("set_active:", slot)
}

/// The command that formats a partition, with its type where one is given.
pub fn format_command(partition: &str, partition_type: Option<&str>) -> (s: String)
    ensures
        s@ == match partition_type {
            Some(t) => "format:"@ + t@ + ":"@ + partition@,
            None => "format:"@ + partition@,
        },
{
    let mut s = owned("format:");
    if let Some(t) = partition_type {
        s.append(t);
        s.append(":");
    }
    s.append(partition);
    s
}

/// The command that reboots, into a target where one is given.
pub fn reboot(target: Option<&str>) -> (s: String)
    ensures
        s@ == match target {
            Some(t) => "reboot-"@ + t@,
            None => "reboot"@,
        },
{
    match target {
        Some(t) => with_argument("reboot-", t),
        None => owned("reboot"),
    }
}

/// A number in a range: eight or more hexadecimal digits behind `0x`.
pub open spec fn range_field(n: u64) -> Seq<char> {
    ":0x"@ + zero_pad(digits(n as nat, 16), 8)
}

/// The command that fetches a partition, or what is behind an offset, or so many bytes there.
/// A size without an offset is not sent.
pub fn fetch(partition: &str, offset: Option<u64>, size: Option<u64>) -> (s: String)
    ensures
        s@ == "fetch:"@ + partition@ + match (offset, size) {
            (None, _) => Seq::empty(),
            (Some(o), None) => range_field(o),
            (Some(o), Some(n)) => range_field(o) + range_field(n),
        },
{
    let mut s = with_argument("fetch:", partition);
    if let Some(o) = offset {
        s.append(":0x");
        s.append(padded(o, 16, 8).as_str());
        if let Some(n) = size {
            s.append(":0x");
            s.append(padded(n, 16, 8).as_str());
        }
    }
    assert(s@ =~= "fetch:"@ + partition@ + match (offset, size) {
        (None, _) => Seq::empty(),
        (Some(o), None) => range_field(o),
        (Some(o), Some(n)) => range_field(o) + range_field(n),
    });
    s
}

/// The command that creates a logical partition.
pub fn create_logical_partition(partition: &str, size: u64) -> (s: String)
    ensures
        s@ == "create-logical-partition:"@ + partition@ + ":"@ + dec(size as nat),
{
    let mut s = with_argument("create-logical-partition:", partition);
    s.append(":");
    s.append(decimal(size).as_str());
    s
}

/// The command that deletes a logical partition.
pub fn delete_logical_partition(partition: &str) -> (s: String)
    ensures
        s@ == "delete-logical-partition:"@ + partition@,
{
    with_argument("delete-logical-partition:", partition)
}

/// The command that resizes a logical partition.
pub fn resize_logical_partition(partition: &str, size: u64) -> (s: String)
    ensures
        s@ == "resize-logical-partition:"@ + partition@ + ":"@ + dec(size as nat),
{
    let mut s = with_argument("resize-logical-partition:", partition);
    s.append(":");
    s.append(decimal(size).as_str());
    s
}

/// The path of the image of a partition in a directory of build products.
pub fn image_path(out_dir: &str, partition: &str) -> (s: String)
    ensures
        s@ == out_dir@ + "/"@ + partition@ + ".img"@,
{
    let mut s = owned(out_dir);
    s.append("/");
    s.append(partition);
    s.append(".img");
    s
}

/// Why a text is no number.
#[derive(Debug, Clone, Copy, PartialEq, Eq, Structural)]
pub enum NumberError {
    Empty,
    InvalidDigit,
    TooLarge,
}

impl NumberError {
    /// The text of the error.
    pub open spec fn text(self) -> Seq<char> {
        match self {
            NumberError::Empty => "cannot parse integer from empty string"@,
            NumberError::InvalidDigit => "invalid digit found in string"@,
            NumberError::TooLarge => "number too large to fit in target type"@,
        }
    }

    /// The text of the error.
    pub fn message(&self) -> (s: String)
        ensures
            s@ == self.text(),
    {
        match self {
            NumberError::Empty => owned("cannot parse integer from empty string"),
            NumberError::InvalidDigit => owned("invalid digit found in string"),
            NumberError::TooLarge => owned("number too large to fit in target type"),
        }
    }
}

/// The number that digits from `i` on add to `v`, read from the left until one does not fit.
pub open spec fn read_digits(s: Seq<char>, base: nat, i: int, v: nat) -> Result<nat, NumberError>
    decreases s.len() - i,
{
    if i < 0 || i >= s.len() {
        Ok(v)
    } else if digit_value(s[i]) >= base {
        Err(NumberError::InvalidDigit)
    } else if v * base + digit_value(s[i]) > u64::MAX {
        Err(NumberError::TooLarge)
    } else {
        read_digits(s, base, i + 1, v * base + digit_value(s[i]))
    }
}

/// A number of 64 bits in a base, with or without a plus sign in front.
pub open spec fn read_number(s: Seq<char>, base: nat) -> Result<nat, NumberError> {
    if s.len() == 0 {
        Err(NumberError::Empty)
    } else if s.len() == 1 && (s[0] == '+' || s[0] == '-') {
        Err(NumberError::InvalidDigit)
    } else if s[0] == '+' {
        read_digits(s, base, 1, 0)
    } else {
        read_digits(s, base, 0, 0)
    }
}

/// A size as a user writes it: in base sixteen behind `0x`, else in base ten.
pub open spec fn size_of_text(s: Seq<char>) -> Result<nat, NumberError> {
    let t = trimmed(s);
    if is_prefix("0x"@, t) || is_prefix("0X"@, t) {
        read_number(t.skip(2), 16)
    } else {
        read_number(t, 10)
    }
}

fn hex_value(c: char) -> (d: u8)
    ensures
        d as nat == digit_value(c),
{
    if '0' <= c && c <= '9' {
        (c as u32 - '0' as u32) as u8
    } else if 'a' <= c && c <= 'f' {
        (c as u32 - 'a' as u32 + 10) as u8
    } else if 'A' <= c && c <= 'F' {
        (c as u32 - 'A' as u32 + 10) as u8
    } else {
        16
    }
}

fn number_of(s: &[char], base: u64) -> (r: Result<u64, NumberError>)
    requires
        2 <= base <= 16,
    ensures
        match r {
            Ok(n) => read_number(s@, base as nat) == Ok::<nat, NumberError>(n as nat),
            Err(e) => read_number(s@, base as nat) == Err::<nat, NumberError>(e),
        },
{
    if s.len() == 0 {
        return Err(NumberError::Empty);
    }
    if s.len() == 1 && (s[0] == '+' || s[0] == '-') {
        return Err(NumberError::InvalidDigit);
    }
    let mut i: usize = if s[0] == '+' {
        1
    } else {
        0
    };
    let mut v: u64 = 0;
    while i < s.len()
        invariant
            2 <= base <= 16,
            i <= s@.len(),
            read_digits(s@, base as nat, i as int, v as nat) == read_number(s@, base as nat),
        decreases s@.len() - i,
    {
        let d: u8 = hex_value(s[i]);
        if d as u64 >= base {
            return Err(NumberError::InvalidDigit);
        }
        assert(v * base <= 0x10_0000_0000_0000_0000) by (nonlinear_arith)
            requires
                v <= 0xffff_ffff_ffff_ffff,
                base <= 16,
        ;
        let next: u128 = (v as u128) * (base as u128) + d as u128;
        assert(next as nat == v as nat * base as nat + d as nat);
        if next > u64::MAX as u128 {
            return Err(NumberError::TooLarge);
        }
        v = next as u64;
        i = i + 1;
    }
    Ok(v)
}

/// Reads a size as a user writes it.
pub fn parse_u64(s: &str) -> (r: Result<u64, NumberError>)
    ensures
        match r {
            Ok(n) => size_of_text(s@) == Ok::<nat, NumberError>(n as nat),
            Err(e) => size_of_text(s@) == Err::<nat, NumberError>(e),
        },
{
    let chars = chars_of(s);
    let t = trim(chars.as_slice());
    proof {
        reveal_strlit("0x");
        reveal_strlit("0X");
    }
    if starts_with(t, "0x") || starts_with(t, "0X") {
        let hex = slice_subrange(t, 2, t.len());
        assert(hex@ =~= t@.skip(2));
        number_of(hex, 16)
    } else {
        number_of(t, 10)
    }
}

/// `c` is this letter in either case.
pub open spec fn is_letter(c: char, lower: char, upper: char) -> bool {
    c == lower || c == upper
}

/// The last character of `s` is this letter in either case.
pub open spec fn ends_in(s: Seq<char>, lower: char, upper: char) -> bool {
    s.len() > 0 && is_letter(s.last(), lower, upper)
}

/// How many characters of `s` make up a unit with this letter: it may stand alone or before a
/// `b`.
pub open spec fn unit_length(s: Seq<char>, lower: char, upper: char) -> int {
    if ends_in(s, 'b', 'B') && ends_in(s.drop_last(), lower, upper) {
        2
    } else if ends_in(s, lower, upper) {
        1
    } else {
        0
    }
}

/// Made of hexadecimal digits only.
pub open spec fn all_hex(s: Seq<char>) -> bool {
    forall|i: int| 0 <= i < s.len() ==> digit_value(#[trigger] s[i]) < 16
}

/// The length of the unit at the end of a size, and what it stands for. A mere `b` is a unit
/// only where it cannot be a digit.
pub open spec fn unit_of(s: Seq<char>) -> (int, nat) {
    if unit_length(s, 'g', 'G') > 0 {
        (unit_length(s, 'g', 'G'), 0x4000_0000)
    } else if unit_length(s, 'm', 'M') > 0 {
        (unit_length(s, 'm', 'M'), 0x10_0000)
    } else if unit_length(s, 'k', 'K') > 0 {
        (unit_length(s, 'k', 'K'), 0x400)
    } else if ends_in(s, 'b', 'B') && !(is_prefix("0x"@, s) || is_prefix("0X"@, s)) && !all_hex(s) {
        (1, 1)
    } else {
        (0, 1)
    }
}

/// The number before a unit: in base sixteen behind `0x`, else in base ten, or in base sixteen
/// where it is no number in base ten.
pub open spec fn size_number(s: Seq<char>) -> Option<nat> {
    if is_prefix("0x"@, s) || is_prefix("0X"@, s) {
        unsigned_spec(s.skip(2), 16, usize::MAX as nat)
    } else {
        match unsigned_spec(s, 10, usize::MAX as nat) {
            Some(n) => Some(n),
            None => unsigned_spec(s, 16, usize::MAX as nat),
        }
    }
}

/// The size that a bootloader gives as the most that it takes at once.
pub open spec fn download_limit(s: Seq<char>) -> Option<nat> {
    let t = trimmed(s);
    let (len, unit) = unit_of(t);
    let num = trimmed(t.take(t.len() - len));
    if num.len() == 0 {
        None
    } else {
        match size_number(num) {
            Some(n) => if n * unit <= usize::MAX {
                Some(n * unit)
            } else {
                None
            },
            None => None,
        }
    }
}

fn letter_at_end(s: &[char], back: usize, lower: char, upper: char) -> (r: bool)
    requires
        1 <= back <= 2,
    ensures
        back == 1 ==> r == ends_in(s@, lower, upper),
        back == 2 ==> r == (s@.len() > 0 && ends_in(s@.drop_last(), lower, upper)),
{
    if s.len() < back {
        return false;
    }
    let c = s[s.len() - back];
    c == lower || c == upper
}

fn unit_len(s: &[char], lower: char, upper: char) -> (r: usize)
    ensures
        r == unit_length(s@, lower, upper),
        r <= 2,
        r <= s@.len(),
{
    if letter_at_end(s, 1, 'b', 'B') && letter_at_end(s, 2, lower, upper) {
        2
    } else if letter_at_end(s, 1, lower, upper) {
        1
    } else {
        0
    }
}

fn is_all_hex(s: &[char]) -> (r: bool)
    ensures
        r == all_hex(s@),
{
    let mut i: usize = 0;
    while i < s.len()
        invariant
            i <= s@.len(),
            forall|k: int| 0 <= k < i ==> digit_value(#[trigger] s@[k]) < 16,
        decreases s@.len() - i,
    {
        if hex_value(s[i]) >= 16 {
            assert(digit_value(s@[i as int]) >= 16);
            return false;
        }
        i = i + 1;
    }
    true
}

fn find_unit(s: &[char]) -> (r: (usize, u64))
    ensures
        (r.0 as int, r.1 as nat) == unit_of(s@),
        r.0 <= s@.len(),
        0 < r.1 <= 0x4000_0000,
{
    let g: usize = unit_len(s, 'g', 'G');
    if g > 0 {
        return (g, 0x4000_0000);
    }
    let m: usize = unit_len(s, 'm', 'M');
    if m > 0 {
        return (m, 0x10_0000);
    }
    let k: usize = unit_len(s, 'k', 'K');
    if k > 0 {
        return (k, 0x400);
    }
    if letter_at_end(s, 1, 'b', 'B') && !(starts_with(s, "0x") || starts_with(s, "0X"))
        && !is_all_hex(s) {
        (1, 1)
    } else {
        (0, 1)
    }
}

fn parse_size_number(s: &[char]) -> (r: Option<u64>)
    ensures
        match r {
            Some(n) => size_number(s@) == Some(n as nat) && n <= usize::MAX,
            None => size_number(s@) is None,
        },
{
    proof {
        reveal_strlit("0x");
        reveal_strlit("0X");
    }
    if starts_with(s, "0x") || starts_with(s, "0X") {
        let hex = slice_subrange(s, 2, s.len());
        assert(hex@ =~= s@.skip(2));
        parse_unsigned(hex, 16, usize::MAX as u64)
    } else {
        match parse_unsigned(s, 10, usize::MAX as u64) {
            Some(n) => Some(n),
            None => parse_unsigned(s, 16, usize::MAX as u64),
        }
    }
}

/// Reads the size that a bootloader gives as the most that it takes at once.
pub fn parse_max_download_size(val: &str) -> (r: Option<usize>)
    ensures
        match r {
            Some(n) => download_limit(val@) == Some(n as nat),
            None => download_limit(val@) is None,
        },
{
    let chars = chars_of(val);
    let s = trim(chars.as_slice());
    let (len, unit) = find_unit(s);
    let head = slice_subrange(s, 0, s.len() - len);
    assert(head@ =~= s@.take(s@.len() - len));
    let num = trim(head);
    if num.len() == 0 {
        return None;
    }
    match parse_size_number(num) {
        Some(n) => {
            let product: u128 = n as u128 * unit as u128;
            assert(product as nat == n as nat * unit as nat);
            if product <= usize::MAX as u128 {
                Some(product as usize)
            } else {
                None
            }
        },
        None => None,
    }
}

/// A packet of one of the five words and a text tells that text, with `DATA` the number that the
/// text is in hexadecimal digits.
pub proof fn replies_are_told(text: Seq<char>)
    ensures
        response_in(seq![0x4fu8, 0x4b, 0x41, 0x59] + encode_utf8(text)) == Some(
            ResponseModel::Okay(text),
        ),
        response_in(seq![0x46u8, 0x41, 0x49, 0x4c] + encode_utf8(text)) == Some(
            ResponseModel::Fail(text),
        ),
        response_in(seq![0x49u8, 0x4e, 0x46, 0x4f] + encode_utf8(text)) == Some(
            ResponseModel::Info(text),
        ),
        response_in(seq![0x54u8, 0x45, 0x58, 0x54] + encode_utf8(text)) == Some(
            ResponseModel::Text(text),
        ),
        is_number(text, 16) ==> response_in(seq![0x44u8, 0x41, 0x54, 0x41] + encode_utf8(text))
            == if number_value(text, 16) <= u32::MAX {
            Some(ResponseModel::Data(number_value(text, 16) as u32))
        } else {
            None
        },
{
    utf8_round_trip(text);
    let body = encode_utf8(text);
    let okay = seq![0x4fu8, 0x4b, 0x41, 0x59];
    let fail = seq![0x46u8, 0x41, 0x49, 0x4c];
    let info = seq![0x49u8, 0x4e, 0x46, 0x4f];
    let plain = seq![0x54u8, 0x45, 0x58, 0x54];
    let data = seq![0x44u8, 0x41, 0x54, 0x41];
    assert((okay + body).take(4) =~= okay && (okay + body).skip(4) =~= body);
    assert((fail + body).take(4) =~= fail && (fail + body).skip(4) =~= body);
    assert((info + body).take(4) =~= info && (info + body).skip(4) =~= body);
    assert((plain + body).take(4) =~= plain && (plain + body).skip(4) =~= body);
    assert((data + body).take(4) =~= data && (data + body).skip(4) =~= body);
    assert(okay[0] == 0x4f && fail[0] == 0x46 && info[0] == 0x49 && plain[0] == 0x54 && data[0]
        == 0x44);
    if is_number(text, 16) {
        assert(digit_value(text[0]) < 16);
    }
}

/// Only the five words are replies.
pub proof fn other_packets_are_no_replies(p: Seq<u8>)
    ensures
        response_in(p) is Some ==> p.len() >= 4 && ({
            let word = p.take(4);
            ||| word == seq![0x4fu8, 0x4b, 0x41, 0x59]
            ||| word == seq![0x46u8, 0x41, 0x49, 0x4c]
            ||| word == seq![0x44u8, 0x41, 0x54, 0x41]
            ||| word == seq![0x49u8, 0x4e, 0x46, 0x4f]
            ||| word == seq![0x54u8, 0x45, 0x58, 0x54]
        }),
{
}

proof fn lemma_hex8(n: nat)
    ensures
        is_number(zero_pad(digits(n, 16), 8), 16),
        number_value(zero_pad(digits(n, 16), 8), 16) == n,
        n <= u32::MAX ==> zero_pad(digits(n, 16), 8).len() == 8,
{
    number_round_trip(n, 16);
    padding_keeps_the_value(digits(n, 16), 8, 16);
    if n <= u32::MAX {
        lemma_digit_count(n, 8);
    }
}

proof fn lemma_digit_count(n: nat, k: nat)
    requires
        0 < k <= 8,
        n < pow16(k),
    ensures
        digits(n, 16).len() <= k,
    decreases k,
{
    if n >= 16 {
        if k > 1 {
            assert(n / 16 < pow16((k - 1) as nat));
            lemma_digit_count(n / 16, (k - 1) as nat);
        }
    }
}

spec fn pow16(k: nat) -> nat {
    if k == 1 {
        0x10
    } else if k == 2 {
        0x100
    } else if k == 3 {
        0x1000
    } else if k == 4 {
        0x1_0000
    } else if k == 5 {
        0x10_0000
    } else if k == 6 {
        0x100_0000
    } else if k == 7 {
        0x1000_0000
    } else {
        0x1_0000_0000
    }
}

/// The command that announces a payload holds its size in eight hexadecimal digits: a device that
/// gives these digits back gives the size back.
pub proof fn announced_size_is_echoed(size: u32)
    ensures
        download_command(size).len() == 17,
        download_command(size).take(9) == "download:"@,
        response_in(
            seq![0x44u8, 0x41, 0x54, 0x41] + encode_utf8(download_command(size).skip(9)),
        ) == Some(ResponseModel::Data(size)),
{
    reveal_strlit("download:");
    lemma_hex8(size as nat);
    let field = zero_pad(digits(size as nat, 16), 8);
    assert(download_command(size).take(9) =~= "download:"@);
    assert(download_command(size).skip(9) =~= field);
    replies_are_told(field);
}

proof fn lemma_read_digits(s: Seq<char>, base: nat, i: int)
    requires
        2 <= base <= 16,
        0 <= i <= s.len(),
        forall|k: int| 0 <= k < s.len() ==> digit_value(#[trigger] s[k]) < base,
        number_value(s, base) <= u64::MAX,
    ensures
        read_digits(s, base, i, number_value(s.take(i), base)) == Ok::<nat, NumberError>(
            number_value(s, base),
        ),
    decreases s.len() - i,
{
    if i == s.len() {
        assert(s.take(i) =~= s);
    } else {
        let next = s.take(i + 1);
        assert(next.drop_last() =~= s.take(i));
        assert(next.last() == s[i]);
        lemma_prefix_value(s, i + 1, base);
        lemma_read_digits(s, base, i + 1);
    }
}

proof fn lemma_prefix_value(s: Seq<char>, i: int, base: nat)
    requires
        base >= 1,
        0 <= i <= s.len(),
    ensures
        number_value(s.take(i), base) <= number_value(s, base),
    decreases s.len() - i,
{
    if i < s.len() {
        let t = s.drop_last();
        assert(t.take(i) =~= s.take(i));
        lemma_prefix_value(t, i, base);
        let v = number_value(t, base);
        assert(v <= v * base) by (nonlinear_arith)
            requires
                base >= 1,
        ;
    } else {
        assert(s.take(i) =~= s);
    }
}

proof fn lemma_number_is_tight(s: Seq<char>, base: nat)
    requires
        is_number(s, base),
        base <= 16,
    ensures
        is_tight(s),
        s[0] != '+',
        s[0] != '-',
{
    assert(digit_value(s[0]) < 16);
    assert(digit_value(s[s.len() - 1]) < 16);
}

/// A number is read from its digits, in decimal or behind `0x` in hexadecimal, with white space
/// around it or without.
pub proof fn sizes_are_read(n: u64, a: Seq<char>, b: Seq<char>)
    requires
        all_white(a),
        all_white(b),
    ensures
        size_of_text(a + dec(n as nat) + b) == Ok::<nat, NumberError>(n as nat),
        size_of_text(a + ("0x"@ + digits(n as nat, 16)) + b) == Ok::<nat, NumberError>(n as nat),
        size_of_text(a + ("0X"@ + digits(n as nat, 16)) + b) == Ok::<nat, NumberError>(n as nat),
{
    reveal_strlit("0x");
    reveal_strlit("0X");
    let d = dec(n as nat);
    let h = digits(n as nat, 16);
    number_round_trip(n as nat, 10);
    number_round_trip(n as nat, 16);
    lemma_number_is_tight(d, 10);
    lemma_number_is_tight(h, 16);
    assert(is_tight("0x"@ + h)) by {
        assert(("0x"@ + h)[0] == '0');
        assert(("0x"@ + h).last() == h.last());
    }
    assert(is_tight("0X"@ + h)) by {
        assert(("0X"@ + h)[0] == '0');
        assert(("0X"@ + h).last() == h.last());
    }
    trimming_keeps_the_middle(a, d, b);
    trimming_keeps_the_middle(a, "0x"@ + h, b);
    trimming_keeps_the_middle(a, "0X"@ + h, b);
    assert(("0x"@ + h).skip(2) =~= h);
    assert(("0X"@ + h).skip(2) =~= h);
    assert(("0x"@ + h).subrange(0, 2) =~= "0x"@);
    assert(("0X"@ + h).subrange(0, 2) =~= "0X"@);
    if d.len() >= 2 {
        assert(digit_value(d[1]) < 10);
        if is_prefix("0x"@, d) {
            assert(d.subrange(0, 2)[1] == d[1]);
        }
        if is_prefix("0X"@, d) {
            assert(d.subrange(0, 2)[1] == d[1]);
        }
    }
    assert(d.take(0) =~= Seq::<char>::empty());
    assert(h.take(0) =~= Seq::<char>::empty());
    lemma_read_digits(d, 10, 0);
    lemma_read_digits(h, 16, 0);
}

/// A place in a partition is written so that it is read back.
pub proof fn places_are_read_back(n: u64)
    ensures
        range_field(n)[0] == ':',
        size_of_text(range_field(n).skip(1)) == Ok::<nat, NumberError>(n as nat),
        range_field(n).len() >= 11,
{
    reveal_strlit(":0x");
    reveal_strlit("0x");
    lemma_hex8(n as nat);
    let f = zero_pad(digits(n as nat, 16), 8);
    number_round_trip(n as nat, 16);
    padding_keeps_the_value(digits(n as nat, 16), 8, 16);
    lemma_number_is_tight(f, 16);
    let t = "0x"@ + f;
    assert(range_field(n).skip(1) =~= t);
    assert(t[0] == '0' && t.last() == f.last());
    let none = Seq::<char>::empty();
    trimming_keeps_the_middle(none, t, none);
    assert(t.skip(2) =~= f);
    assert(t.subrange(0, 2) =~= "0x"@);
    assert(f.take(0) =~= none);
    lemma_read_digits(f, 16, 0);
}

/// The units of a size: the letters at the end, and what they stand for.
pub open spec fn unit_words() -> Seq<(Seq<char>, nat)> {
    seq![
        (seq!['K'], 1024),
        (seq!['k'], 1024),
        (seq!['K', 'B'], 1024),
        (seq!['k', 'b'], 1024),
        (seq!['M'], 1024 * 1024),
        (seq!['m'], 1024 * 1024),
        (seq!['M', 'B'], 1024 * 1024),
        (seq!['m', 'b'], 1024 * 1024),
        (seq!['G'], 1024 * 1024 * 1024),
        (seq!['g'], 1024 * 1024 * 1024),
        (seq!['G', 'B'], 1024 * 1024 * 1024),
        (seq!['g', 'b'], 1024 * 1024 * 1024),
    ]
}

proof fn lemma_decimal_size(n: nat)
    requires
        n <= usize::MAX,
    ensures
        size_number(dec(n)) == Some(n),
        is_tight(dec(n)),
        dec(n).len() > 0,
        forall|i: int| 0 <= i < dec(n).len() ==> '0' <= #[trigger] dec(n)[i] <= '9',
{
    reveal_strlit("0x");
    reveal_strlit("0X");
    let d = dec(n);
    number_round_trip(n, 10);
    lemma_number_is_tight(d, 10);
    assert forall|i: int| 0 <= i < d.len() implies '0' <= #[trigger] d[i] <= '9' by {
        assert(digit_value(d[i]) < 10);
    }
    if d.len() >= 2 {
        if is_prefix("0x"@, d) {
            assert(d.subrange(0, 2)[1] == d[1]);
        }
        if is_prefix("0X"@, d) {
            assert(d.subrange(0, 2)[1] == d[1]);
        }
    }
}

/// A limit is read from its decimal digits: as it stands, or behind it a unit by which it is
/// multiplied. One that does not fit is no limit.
pub proof fn limits_are_read(n: usize, a: Seq<char>, b: Seq<char>, k: int)
    requires
        all_white(a),
        all_white(b),
        0 <= k < unit_words().len(),
    ensures
        download_limit(a + dec(n as nat) + b) == Some(n as nat),
        download_limit(a + (dec(n as nat) + unit_words()[k].0) + b) == if n * unit_words()[k].1
            <= usize::MAX {
            Some((n * unit_words()[k].1) as nat)
        } else {
            None
        },
{
    let d = dec(n as nat);
    let (u, factor) = unit_words()[k];
    lemma_decimal_size(n as nat);
    trimming_keeps_the_middle(a, d, b);
    assert('0' <= d[d.len() - 1] <= '9');
    assert(unit_of(d) == (0int, 1nat));
    assert(d.take(d.len() - 0) =~= d);
    assert(n as nat * 1 == n);
    let t = d + u;
    assert(u.len() == 1 || u.len() == 2);
    assert(t[0] == d[0] && t.last() == u.last());
    assert(is_tight(t));
    trimming_keeps_the_middle(a, t, b);
    assert(t.take(t.len() - u.len()) =~= d);
    if u.len() == 2 {
        assert(t.drop_last().last() == u[0]);
        assert(t.drop_last().len() > 0);
        assert(t.drop_last().drop_last() =~= d);
    } else {
        assert(t.drop_last() =~= d);
    }
    assert(unit_of(t) == (u.len() as int, factor));
}

proof fn lemma_read_too_large(s: Seq<char>, base: nat, i: int)
    requires
        2 <= base <= 16,
        0 <= i <= s.len(),
        forall|k: int| 0 <= k < s.len() ==> digit_value(#[trigger] s[k]) < base,
        number_value(s, base) > u64::MAX,
    ensures
        read_digits(s, base, i, number_value(s.take(i), base)) == if number_value(s.take(i), base)
            <= u64::MAX {
            Err::<nat, NumberError>(NumberError::TooLarge)
        } else {
            read_digits(s, base, i, number_value(s.take(i), base))
        },
    decreases s.len() - i,
{
    if i == s.len() {
        assert(s.take(i) =~= s);
    } else {
        let next = s.take(i + 1);
        assert(next.drop_last() =~= s.take(i));
        assert(next.last() == s[i]);
        lemma_read_too_large(s, base, i + 1);
    }
}

/// A number that does not fit is said to be too large, an empty text to be empty, and a text that
/// begins with something else than a digit or a sign to be no number.
pub proof fn other_sizes_are_refused(n: nat, w: Seq<char>, c: char, rest: Seq<char>)
    requires
        n > u64::MAX,
        all_white(w),
        !is_white(c) && !('0' <= c <= '9') && c != '+',
        is_tight(seq![c] + rest),
    ensures
        size_of_text(dec(n)) == Err::<nat, NumberError>(NumberError::TooLarge),
        size_of_text(w) == Err::<nat, NumberError>(NumberError::Empty),
        size_of_text(seq![c] + rest) == Err::<nat, NumberError>(NumberError::InvalidDigit),
{
    reveal_strlit("0x");
    reveal_strlit("0X");
    let none = Seq::<char>::empty();
    let d = dec(n);
    number_round_trip(n, 10);
    lemma_number_is_tight(d, 10);
    trimming_keeps_the_middle(none, d, none);
    if d.len() >= 2 {
        assert(digit_value(d[1]) < 10);
        if is_prefix("0x"@, d) {
            assert(d.subrange(0, 2)[1] == d[1]);
        }
        if is_prefix("0X"@, d) {
            assert(d.subrange(0, 2)[1] == d[1]);
        }
    }
    assert(d.take(0) =~= none);
    lemma_read_too_large(d, 10, 0);
    trimming_keeps_the_middle(w, none, none);
    assert(w + none + none =~= w);
    let t = seq![c] + rest;
    trimming_keeps_the_middle(none, t, none);
    assert(t[0] == c);
    if is_prefix("0x"@, t) {
        assert(t.subrange(0, 2)[0] == t[0]);
    }
    if is_prefix("0X"@, t) {
        assert(t.subrange(0, 2)[0] == t[0]);
    }
}

/// A limit may also be given in hexadecimal digits behind `0x`.
pub proof fn hexadecimal_limits_are_read(n: usize, a: Seq<char>, b: Seq<char>)
    requires
        all_white(a),
        all_white(b),
    ensures
        download_limit(a + ("0x"@ + digits(n as nat, 16)) + b) == Some(n as nat),
{
    reveal_strlit("0x");
    let h = digits(n as nat, 16);
    let t = "0x"@ + h;
    number_round_trip(n as nat, 16);
    lemma_number_is_tight(h, 16);
    assert(t[0] == '0' && t.last() == h.last());
    assert(is_tight(t));
    trimming_keeps_the_middle(a, t, b);
    let none = Seq::<char>::empty();
    trimming_keeps_the_middle(none, t, none);
    assert(t.subrange(0, 2) =~= "0x"@);
    assert(t.skip(2) =~= h);
    assert(digit_value(h[h.len() - 1]) < 16);
    if h.len() >= 2 {
        assert(digit_value(h[h.len() - 2]) < 16);
        assert(t.drop_last().last() == h[h.len() - 2]);
    } else {
        assert(t.drop_last().last() == 'x');
    }
    assert(unit_of(t) == (0int, 1nat));
    assert(t.take(t.len() - 0) =~= t);
    assert(n as nat * 1 == n);
}

} // verus!
