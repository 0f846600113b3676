//! Compression of sync data.

use crate::bytes::{le_value, numbers_are_little_endian, read_u32};
use crate::constants::{SYNC_FLAG_BROTLI, SYNC_FLAG_LZ4, SYNC_FLAG_NONE, SYNC_FLAG_ZSTD};
use crate::text::{dec, decimal, owned};
use vstd::prelude::*;
use vstd::slice::slice_to_vec;

verus! {

/// Why data could not be compressed or decompressed.
#[derive(Debug, PartialEq, Eq)]
pub enum CompressionError {
    /// The compressor failed.
    Compress(String),
    /// The decompressor failed.
    Decompress(String),
    /// A flag that names no compression.
    UnknownType(u32),
}

/// What a compression error says.
pub enum CompressionErrorModel {
    Compress(Seq<char>),
    Decompress(Seq<char>),
    UnknownType(u32),
}

impl View for CompressionError {
    type V = CompressionErrorModel;

    open spec fn view(&self) -> CompressionErrorModel {
        match *self {
            CompressionError::Compress(m) => CompressionErrorModel::Compress(m@),
            CompressionError::Decompress(m) => CompressionErrorModel::Decompress(m@),
            CompressionError::UnknownType(f) => CompressionErrorModel::UnknownType(f),
        }
    }
}

/// What a compression error prints as.
pub open spec fn compression_error_text(e: CompressionErrorModel) -> Seq<char> {
    match e {
        CompressionErrorModel::Compress(m) => "Compression failed: "@ + m,
        CompressionErrorModel::Decompress(m) => "Decompression failed: "@ + m,
        CompressionErrorModel::UnknownType(f) => "Unknown compression type: "@ + dec(f as nat),
    }
}

impl CompressionError {
    /// The text of the error.
    pub fn message(&self) -> (s: String)
        ensures
            s@ == compression_error_text(self@),
    {
        let mut s = String::new();
        match self {
            CompressionError::Compress(m) => {
                s.append("Compression failed: ");
                s.append(m.as_str());
            },
            CompressionError::Decompress(m) => {
                s.append("Decompression failed: ");
                s.append(m.as_str());
            },
            CompressionError::UnknownType(f) => {
                s.append("Unknown compression type: ");
                s.append(decimal(*f as u64).as_str());
            },
        }
        assert(s@ =~= compression_error_text(self@));
        s
    }
}

/// The kinds of compression.
#[derive(Debug, Clone, Copy, PartialEq, Eq, Structural)]
pub enum CompressionType {
    Uncompressed,
    Brotli,
    LZ4,
    Zstd,
}

/// The flag of a kind of compression.
pub open spec fn flag_of(t: CompressionType) -> u32 {
    match t {
        CompressionType::Uncompressed => SYNC_FLAG_NONE,
        CompressionType::Brotli => SYNC_FLAG_BROTLI,
        CompressionType::LZ4 => SYNC_FLAG_LZ4,
        CompressionType::Zstd => SYNC_FLAG_ZSTD,
    }
}

/// The kind of compression of a flag.
pub open spec fn type_of(flag: u32) -> Option<CompressionType> {
    if flag == SYNC_FLAG_NONE {
        Some(CompressionType::Uncompressed)
    } else if flag == SYNC_FLAG_BROTLI {
        Some(CompressionType::Brotli)
    } else if flag == SYNC_FLAG_LZ4 {
        Some(CompressionType::LZ4)
    } else if flag == SYNC_FLAG_ZSTD {
        Some(CompressionType::Zstd)
    } else {
        None
    }
}

/// A kind of compression is that of its flag, and of no other.
pub proof fn flag_round_trip(t: CompressionType, flag: u32)
    ensures
        type_of(flag_of(t)) == Some(t),
        type_of(flag) == Some(t) ==> flag == flag_of(t),
{
}

impl CompressionType {
    /// Convert to SYNC_FLAG_* constant
    pub fn to_flag(self) -> (r: u32)
        ensures
            r == flag_of(self),
    {
        match self {
            CompressionType::Uncompressed => SYNC_FLAG_NONE,
            CompressionType::Brotli => SYNC_FLAG_BROTLI,
            CompressionType::LZ4 => SYNC_FLAG_LZ4,
            CompressionType::Zstd => SYNC_FLAG_ZSTD,
        }
    }

    /// Convert from SYNC_FLAG_* constant
    pub fn from_flag(flag: u32) -> (r: Result<CompressionType, CompressionError>)
        ensures
            match type_of(flag) {
                Some(t) => r == Ok::<CompressionType, CompressionError>(t),
                None => r == Err::<CompressionType, CompressionError>(
                    CompressionError::UnknownType(flag),
                ),
            },
    {
        if flag == SYNC_FLAG_NONE {
            Ok(CompressionType::Uncompressed)
        } else if flag == SYNC_FLAG_BROTLI {
            Ok(CompressionType::Brotli)
        } else if flag == SYNC_FLAG_LZ4 {
            Ok(CompressionType::LZ4)
        } else if flag == SYNC_FLAG_ZSTD {
            Ok(CompressionType::Zstd)
        } else {
            Err(CompressionError::UnknownType(flag))
        }
    }
}

/// What a result of a compressor says: bytes, or the text of its error.
pub open spec fn bytes_result(r: Result<Vec<u8>, String>) -> Result<Seq<u8>, Seq<char>> {
    match r {
        Ok(v) => Ok(v@),
        Err(e) => Err(e@),
    }
}

/// The outcome is the given bytes.
pub open spec fn yields(outcome: Result<Seq<u8>, Seq<char>>, bytes: Seq<u8>) -> bool {
    outcome matches Ok(b) && b == bytes
}

/// What `brotli::BrotliCompress` with the default parameters makes of data.
pub uninterp spec fn brotli_encoded(data: Seq<u8>) -> Result<Seq<u8>, Seq<char>>;

/// What `brotli::BrotliDecompress` makes of data.
pub uninterp spec fn brotli_decoded(data: Seq<u8>) -> Result<Seq<u8>, Seq<char>>;

/// What `lz4_flex::compress_prepend_size` makes of data.
pub uninterp spec fn lz4_encoded(data: Seq<u8>) -> Seq<u8>;

/// What `lz4_flex::decompress_size_prepended` makes of data.
pub uninterp spec fn lz4_decoded(data: Seq<u8>) -> Result<Seq<u8>, Seq<char>>;

/// What `zstd::encode_all` makes of data at a level.
pub uninterp spec fn zstd_encoded(data: Seq<u8>, level: int) -> Result<Seq<u8>, Seq<char>>;

/// What `zstd::decode_all` makes of data.
pub uninterp spec fn zstd_decoded(data: Seq<u8>) -> Result<Seq<u8>, Seq<char>>;

/// `brotli::BrotliCompress` with the default parameters: a function of the data, whose
/// output decompresses to the data.
#[verifier::external_body]
fn brotli_compress(data: &[u8]) -> (r: Result<Vec<u8>, String>)
    ensures
        bytes_result(r) == brotli_encoded(data@),
        r matches Ok(c) ==> yields(brotli_decoded(c@), data@),
{
    let mut out = Vec::new();
    let params = brotli::enc::BrotliEncoderParams::default();
    match brotli::BrotliCompress(&mut std::io::BufReader::new(data), &mut out, &params) {
        Ok(_) => Ok(out),
        Err(e) => Err(e.to_string()),
    }
}

/// `brotli::BrotliDecompress`: a function of the data.
#[verifier::external_body]
fn brotli_decompress(data: &[u8]) -> (r: Result<Vec<u8>, String>)
    ensures
        bytes_result(r) == brotli_decoded(data@),
{
    let mut out = Vec::new();
    match brotli::BrotliDecompress(&mut std::io::BufReader::new(data), &mut out) {
        Ok(_) => Ok(out),
        Err(e) => Err(e.to_string()),
    }
}

/// The longest data for which LZ4 can reckon how much room the output may take.
pub open spec fn lz4_longest() -> nat {
    (usize::MAX / 110) as nat
}

/// The longest run of the byte 0xFF whose sum can be told as a length.
pub open spec fn lz4_longest_run() -> nat {
    if usize::MAX > u32::MAX {
        16_843_008
    } else {
        8_000_000
    }
}

/// How many bytes 0xFF stand in a row from `at` on.
pub open spec fn run_of_ff(data: Seq<u8>, at: int) -> nat
    decreases data.len() - at,
{
    if 0 <= at < data.len() && data[at] == 0xFF {
        1 + run_of_ff(data, at + 1)
    } else {
        0
    }
}

/// A length in LZ4 data.
pub enum Lz4Length {
    /// Too large to be added up.
    TooLarge,
    /// The data ends within it.
    Short,
    /// A length, and where the data goes on behind it.
    Length { value: nat, next: int },
}

/// The length that begins with four bits of a token: what they say, or, where they are all set, what
/// the bytes from `at` on add up to with them.
pub open spec fn lz4_length(data: Seq<u8>, at: int, bits: int) -> Lz4Length {
    let run = run_of_ff(data, at);
    if bits < 15 {
        Lz4Length::Length { value: bits as nat, next: at }
    } else if run > lz4_longest_run() {
        Lz4Length::TooLarge
    } else if at + run >= data.len() {
        Lz4Length::Short
    } else {
        Lz4Length::Length { value: 15 + 255 * run + data[at + run] as nat, next: at + run + 1 }
    }
}

/// The lengths in LZ4 data from the token at `at` on can all be added up. Behind a token stand the
/// literals that its upper half tells of and the two bytes of an offset, and then the length of the
/// match that its lower half tells of.
pub open spec fn lengths_fit(data: Seq<u8>, at: int) -> bool
    decreases data.len() - at,
{
    if at < 0 || at >= data.len() {
        true
    } else {
        match lz4_length(data, at + 1, data[at] as int / 16) {
            Lz4Length::TooLarge => false,
            Lz4Length::Short => true,
            Lz4Length::Length { value, next } => if next + value + 2 > data.len() {
                true
            } else {
                match lz4_length(data, next + value + 2, data[at] as int % 16) {
                    Lz4Length::TooLarge => false,
                    Lz4Length::Short => true,
                    Lz4Length::Length { next: behind, .. } => lengths_fit(data, behind),
                }
            },
        }
    }
}

/// Data whose lengths LZ4 can add up: the size in the first four bytes is one that memory can hold,
/// and so are the lengths behind it.
pub open spec fn lz4_readable(data: Seq<u8>) -> bool {
    &&& data.len() >= 4 ==> le_value(data.subrange(0, 4)) <= isize::MAX
    &&& lengths_fit(data, 4)
}

/// `lz4_flex::compress_prepend_size`: a function of the data. Where the length of the data fits the
/// four bytes that are put before it, no length in the output is larger than that of the data, so
/// the output can be read back, and it decompresses to the data. Longer data than the bound allows
/// makes the reckoning of `get_maximum_output_size` overflow.
#[verifier::external_body]
fn lz4_compress(data: &[u8]) -> (r: Vec<u8>)
    requires
        data@.len() <= lz4_longest(),
    ensures
        r@ == lz4_encoded(data@),
        data@.len() <= u32::MAX ==> lz4_readable(r@) && yields(lz4_decoded(r@), data@),
{
    lz4_flex::compress_prepend_size(data)
}

/// `lz4_flex::decompress_size_prepended`: a function of the data. It adds up the bytes of a length
/// in 32 bits, so too long a run of 0xFF in a length makes it overflow.
#[verifier::external_body]
fn lz4_decompress(data: &[u8]) -> (r: Result<Vec<u8>, String>)
    requires
        lz4_readable(data@),
    ensures
        bytes_result(r) == lz4_decoded(data@),
{
    lz4_flex::decompress_size_prepended(data).map_err(|e| e.to_string())
}

/// `zstd::encode_all`: a function of the data and the level, whose output decompresses to
/// the data.
#[verifier::external_body]
fn zstd_compress(data: &[u8], level: i32) -> (r: Result<Vec<u8>, String>)
    ensures
        bytes_result(r) == zstd_encoded(data@, level as int),
        r matches Ok(c) ==> yields(zstd_decoded(c@), data@),
{
    zstd::encode_all(data, level).map_err(|e| e.to_string())
}

/// `zstd::decode_all`: a function of the data.
#[verifier::external_body]
fn zstd_decompress(data: &[u8]) -> (r: Result<Vec<u8>, String>)
    ensures
        bytes_result(r) == zstd_decoded(data@),
{
    zstd::decode_all(data).map_err(|e| e.to_string())
}

/// A length that was read.
enum LengthRead {
    TooLarge,
    Short,
    Length { value: usize, next: usize },
}

impl View for LengthRead {
    type V = Lz4Length;

    closed spec fn view(&self) -> Lz4Length {
        match *self {
            LengthRead::TooLarge => Lz4Length::TooLarge,
            LengthRead::Short => Lz4Length::Short,
            LengthRead::Length { value, next } => Lz4Length::Length {
                value: value as nat,
                next: next as int,
            },
        }
    }
}

fn read_length(data: &[u8], at: usize, bits: u8) -> (r: LengthRead)
    requires
        at <= data@.len(),
        bits < 16,
    ensures
        r@ == lz4_length(data@, at as int, bits as int),
        r matches LengthRead::Length { next, .. } ==> at <= next <= data@.len(),
{
    if bits < 15 {
        return LengthRead::Length { value: bits as usize, next: at };
    }
    let longest: usize = if usize::MAX as u64 > u32::MAX as u64 {
        16_843_008
    } else {
        8_000_000
    };
    let mut run: usize = 0;
    while run < data.len() - at && data[at + run] == 0xFF
        invariant
            longest == lz4_longest_run(),
            at <= data@.len(),
            run <= data@.len() - at,
            run <= longest,
            run_of_ff(data@, at as int) == run + run_of_ff(data@, at + run),
            bits == 15,
        decreases data@.len() - at - run,
    {
        if run == longest {
            return LengthRead::TooLarge;
        }
        run = run + 1;
    }
    if run == data.len() - at {
        return LengthRead::Short;
    }
    LengthRead::Length { value: 15 + 255 * run + data[at + run] as usize, next: at + run + 1 }
}

/// Whether LZ4 can add up the lengths in data.
pub fn lz4_can_read(data: &[u8]) -> (r: bool)
    ensures
        r == lz4_readable(data@),
{
    if data.len() >= 4 && read_u32(data, 0) as u64 > isize::MAX as u64 {
        return false;
    }
    let mut at: usize = 4;
    while at < data.len()
        invariant
            data@.len() >= 4 ==> le_value(data@.subrange(0, 4)) <= isize::MAX,
            lengths_fit(data@, 4) == lengths_fit(data@, at as int),
        decreases data@.len() - at,
    {
        let token: u8 = data[at];
        let (value, next) = match read_length(data, at + 1, token / 16) {
            LengthRead::TooLarge => {
                return false;
            },
            LengthRead::Short => {
                return true;
            },
            LengthRead::Length { value, next } => (value, next),
        };
        let left: usize = data.len() - next;
        if left < 2 || value > left - 2 {
            return true;
        }
        match read_length(data, next + value + 2, token % 16) {
            LengthRead::TooLarge => {
                return false;
            },
            LengthRead::Short => {
                return true;
            },
            LengthRead::Length { next: behind, .. } => {
                at = behind;
            },
        }
    }
    true
}

/// The level at which Zstandard compresses.
pub const ZSTD_LEVEL: i32 = 3;

/// The outcome of a compressor as an outcome of this module.
pub open spec fn as_compressed(r: Result<Seq<u8>, Seq<char>>) -> Result<
    Seq<u8>,
    CompressionErrorModel,
> {
    match r {
        Ok(c) => Ok(c),
        Err(m) => Err(CompressionErrorModel::Compress(m)),
    }
}

/// The outcome of a decompressor as an outcome of this module.
pub open spec fn as_decompressed(r: Result<Seq<u8>, Seq<char>>) -> Result<
    Seq<u8>,
    CompressionErrorModel,
> {
    match r {
        Ok(c) => Ok(c),
        Err(m) => Err(CompressionErrorModel::Decompress(m)),
    }
}

/// Data as each kind of compression compresses it.
pub open spec fn compressed(t: CompressionType, data: Seq<u8>) -> Result<
    Seq<u8>,
    CompressionErrorModel,
> {
    match t {
        CompressionType::Uncompressed => Ok(data),
        CompressionType::Brotli => as_compressed(brotli_encoded(data)),
        CompressionType::LZ4 => if data.len() <= lz4_longest() {
            Ok(lz4_encoded(data))
        } else {
            Err(CompressionErrorModel::Compress("data too long for LZ4"@))
        },
        CompressionType::Zstd => as_compressed(zstd_encoded(data, ZSTD_LEVEL as int)),
    }
}

/// Data as each kind of compression decompresses it.
pub open spec fn decompressed(t: CompressionType, data: Seq<u8>) -> Result<
    Seq<u8>,
    CompressionErrorModel,
> {
    match t {
        CompressionType::Uncompressed => Ok(data),
        CompressionType::Brotli => as_decompressed(brotli_decoded(data)),
        CompressionType::LZ4 => if lz4_readable(data) {
            as_decompressed(lz4_decoded(data))
        } else {
            Err(CompressionErrorModel::Decompress("a length in the data is too large"@))
        },
        CompressionType::Zstd => as_decompressed(zstd_decoded(data)),
    }
}

/// What a result of this module says.
pub open spec fn compression_result(r: Result<Vec<u8>, CompressionError>) -> Result<
    Seq<u8>,
    CompressionErrorModel,
> {
    match r {
        Ok(v) => Ok(v@),
        Err(e) => Err(e@),
    }
}

/// Turns the outcome of a compressor into a result of this module.
pub fn compress_outcome(r: Result<Vec<u8>, String>) -> (out: Result<Vec<u8>, CompressionError>)
    ensures
        compression_result(out) == as_compressed(bytes_result(r)),
        r matches Ok(v) ==> out == Ok::<Vec<u8>, CompressionError>(v),
{
    match r {
        Ok(v) => Ok(v),
        Err(m) => Err(CompressionError::Compress(m)),
    }
}

/// Turns the outcome of a decompressor into a result of this module.
pub fn decompress_outcome(r: Result<Vec<u8>, String>) -> (out: Result<Vec<u8>, CompressionError>)
    ensures
        compression_result(out) == as_decompressed(bytes_result(r)),
{
    match r {
        Ok(v) => Ok(v),
        Err(m) => Err(CompressionError::Decompress(m)),
    }
}

/// Compresses data. What comes out decompresses to the data, but for LZ4 on data whose length
/// needs more than 32 bits.
pub fn compress(ctype: CompressionType, data: &[u8]) -> (r: Result<Vec<u8>, CompressionError>)
    ensures
        compression_result(r) == compressed(ctype, data@),
        (r matches Ok(c) && (ctype == CompressionType::LZ4 ==> data@.len() <= u32::MAX))
            ==> decompressed(ctype, r->Ok_0@) == Ok::<Seq<u8>, CompressionErrorModel>(data@),
{
    match ctype {
        CompressionType::Uncompressed => Ok(slice_to_vec(data)),
        CompressionType::Brotli => compress_outcome(brotli_compress(data)),
        CompressionType::LZ4 => {
            if data.len() > usize::MAX / 110 {
                return Err(CompressionError::Compress(owned("data too long for LZ4")));
            }
            Ok(lz4_compress(data))
        },
        CompressionType::Zstd => compress_outcome(zstd_compress(data, ZSTD_LEVEL)),
    }
}

/// Decompresses data. Data in which LZ4 would find a length that is too large is refused.
pub fn decompress(ctype: CompressionType, data: &[u8]) -> (r: Result<Vec<u8>, CompressionError>)
    ensures
        compression_result(r) == decompressed(ctype, data@),
{
    match ctype {
        CompressionType::Uncompressed => Ok(slice_to_vec(data)),
        CompressionType::Brotli => decompress_outcome(brotli_decompress(data)),
        CompressionType::LZ4 => if lz4_can_read(data) {
            decompress_outcome(lz4_decompress(data))
        } else {
            Err(CompressionError::Decompress(owned("a length in the data is too large")))
        },
        CompressionType::Zstd => decompress_outcome(zstd_decompress(data)),
    }
}

/// The kinds of compression have these flags, and each uses its own codec both ways.
pub proof fn each_kind_has_its_codec(data: Seq<u8>, c: Seq<u8>)
    ensures
        flag_of(CompressionType::Uncompressed) == 0,
        flag_of(CompressionType::Brotli) == 1,
        flag_of(CompressionType::LZ4) == 2,
        flag_of(CompressionType::Zstd) == 4,
        compressed(CompressionType::Uncompressed, data) == Ok::<Seq<u8>, CompressionErrorModel>(
            data,
        ),
        decompressed(CompressionType::Uncompressed, data) == Ok::<Seq<u8>, CompressionErrorModel>(
            data,
        ),
        compressed(CompressionType::Brotli, data) == Ok::<Seq<u8>, CompressionErrorModel>(c)
            <==> brotli_encoded(data) == Ok::<Seq<u8>, Seq<char>>(c),
        decompressed(CompressionType::Brotli, data) == Ok::<Seq<u8>, CompressionErrorModel>(c)
            <==> brotli_decoded(data) == Ok::<Seq<u8>, Seq<char>>(c),
        compressed(CompressionType::Zstd, data) == Ok::<Seq<u8>, CompressionErrorModel>(c)
            <==> zstd_encoded(data, 3) == Ok::<Seq<u8>, Seq<char>>(c),
        decompressed(CompressionType::Zstd, data) == Ok::<Seq<u8>, CompressionErrorModel>(c)
            <==> zstd_decoded(data) == Ok::<Seq<u8>, Seq<char>>(c),
        compressed(CompressionType::LZ4, data) == Ok::<Seq<u8>, CompressionErrorModel>(c) ==> c
            == lz4_encoded(data),
        decompressed(CompressionType::LZ4, data) == Ok::<Seq<u8>, CompressionErrorModel>(c)
            ==> lz4_decoded(data) == Ok::<Seq<u8>, Seq<char>>(c),
{
}

proof fn lemma_run_fits(data: Seq<u8>, at: int)
    requires
        0 <= at,
    ensures
        at <= data.len() ==> run_of_ff(data, at) <= data.len() - at,
        at > data.len() ==> run_of_ff(data, at) == 0,
    decreases data.len() - at,
{
    if at < data.len() && data[at] == 0xFF {
        lemma_run_fits(data, at + 1);
    }
}

proof fn lemma_short_data_fits(data: Seq<u8>, at: int)
    requires
        data.len() <= 8_000_000,
        0 <= at,
    ensures
        lengths_fit(data, at),
    decreases data.len() - at,
{
    if at < data.len() {
        lemma_run_fits(data, at + 1);
        match lz4_length(data, at + 1, data[at] as int / 16) {
            Lz4Length::Length { value, next } => if next + value + 2 <= data.len() {
                lemma_run_fits(data, next + value + 2);
                match lz4_length(data, next + value + 2, data[at] as int % 16) {
                    Lz4Length::Length { next: behind, .. } => {
                        assert(at < behind <= data.len());
                        lemma_short_data_fits(data, behind);
                    },
                    _ => {},
                }
            },
            _ => {},
        }
    }
}

/// No data of up to eight million bytes is turned away before it is decompressed, but for one that
/// names a size that no memory holds.
pub proof fn short_data_is_decompressed(data: Seq<u8>)
    requires
        4 <= data.len() <= 8_000_000,
        data[3] < 0x80,
    ensures
        lz4_readable(data),
        decompressed(CompressionType::LZ4, data) == match lz4_decoded(data) {
            Ok(c) => Ok::<Seq<u8>, CompressionErrorModel>(c),
            Err(m) => Err(CompressionErrorModel::Decompress(m)),
        },
{
    lemma_short_data_fits(data, 4);
    numbers_are_little_endian(data, 0);
}

} // verus!
