//! Packets of the file sync service.

use crate::bytes::{
    le_bytes, le_value, lemma_i64_round_trip, lemma_u32_round_trip, lemma_u64_round_trip, long_at,
    numbers_are_little_endian, push_bytes, push_i64, push_u32, push_u64, read_i64, read_u32, read_u64, signed_64,
    u32_bytes, unsigned_64, word_at,
};
use crate::constants::{
    SYNC_DATA, SYNC_DONE, SYNC_LIST, SYNC_RECV, SYNC_RECV_V2, SYNC_SEND, SYNC_SEND_V2, SYNC_STAT,
};
use crate::header::u32_at;
use crate::text::{
    chars_of, dec, decimal, find_char, find_from, from_utf8_lossy, lemma_find_from, lossy_text, number_round_trip,
    number_value, owned, utf8_round_trip,
};
use vstd::prelude::*;
use vstd::utf8::encode_utf8;

verus! {

/// Why a sync packet could not be built or read.
#[derive(Debug, PartialEq, Eq)]
pub enum SyncProtocolError {
    /// Fewer bytes than were called for.
    HeaderTooShort { expected: usize, got: usize },
    /// The device reported a failure.
    SyncFail(String),
    /// A path that cannot be sent.
    InvalidPath(String),
    /// A message that cannot be sent or makes no sense.
    InvalidMessage(String),
}

/// What a sync error says.
pub enum SyncErrorModel {
    HeaderTooShort { expected: int, got: int },
    SyncFail(Seq<char>),
    InvalidPath(Seq<char>),
    InvalidMessage(Seq<char>),
}

impl View for SyncProtocolError {
    type V = SyncErrorModel;

    open spec fn view(&self) -> SyncErrorModel {
        match *self {
            SyncProtocolError::HeaderTooShort { expected, got } => SyncErrorModel::HeaderTooShort {
                expected: expected as int,
                got: got as int,
            },
            SyncProtocolError::SyncFail(m) => SyncErrorModel::SyncFail(m@),
            SyncProtocolError::InvalidPath(m) => SyncErrorModel::InvalidPath(m@),
            SyncProtocolError::InvalidMessage(m) => SyncErrorModel::InvalidMessage(m@),
        }
    }
}

/// What a sync error prints as.
pub open spec fn sync_error_text(e: SyncErrorModel) -> Seq<char> {
    match e {
        SyncErrorModel::HeaderTooShort { expected, got } => "Sync header too short: expected "@
            + dec(expected as nat) + " bytes, got "@ + dec(got as nat),
        SyncErrorModel::SyncFail(m) => "Sync command failed with message: "@ + m,
        SyncErrorModel::InvalidPath(m) => "Invalid path: "@ + m,
        SyncErrorModel::InvalidMessage(m) => "Invalid message structure or size overflow: "@ + m,
    }
}

impl SyncProtocolError {
    /// The text of the error.
    pub fn message(&self) -> (s: String)
        ensures
            s@ == sync_error_text(self@),
    {
        let mut s = String::new();
        match self {
            SyncProtocolError::HeaderTooShort { expected, got } => {
                s.append("Sync header too short: expected ");
                s.append(decimal(*expected as u64).as_str());
                s.append(" bytes, got ");
                s.append(decimal(*got as u64).as_str());
            },
            SyncProtocolError::SyncFail(m) => {
                s.append("Sync command failed with message: ");
                s.append(m.as_str());
            },
            SyncProtocolError::InvalidPath(m) => {
                s.append("Invalid path: ");
                s.append(m.as_str());
            },
            SyncProtocolError::InvalidMessage(m) => {
                s.append("Invalid message structure or size overflow: ");
                s.append(m.as_str());
            },
        }
        assert(s@ =~= sync_error_text(self@));
        s
    }
}

/// `c` occurs in `s`.
pub open spec fn has_char(s: Seq<char>, c: char) -> bool {
    find_from(s, c, 0) < s.len()
}

/// Why a path cannot be sent.
pub open spec fn path_error(path: Seq<char>, allow_comma: bool) -> Option<Seq<char>> {
    if path.len() == 0 {
        Some("Path cannot be empty"@)
    } else if has_char(path, '\0') {
        Some("Path cannot contain NUL byte"@)
    } else if !allow_comma && has_char(path, ',') {
        Some("Path cannot contain ',' in V1 SEND request"@)
    } else if encode_utf8(path).len() > u32::MAX {
        Some("Path length exceeds u32::MAX"@)
    } else {
        None
    }
}

fn validate_path(path: &str, allow_comma: bool) -> (r: Result<(), SyncProtocolError>)
    ensures
        match r {
            Ok(()) => path_error(path@, allow_comma) is None,
            Err(e) => path_error(path@, allow_comma) matches Some(m) && e@
                == SyncErrorModel::InvalidPath(m),
        },
{
    let chars = chars_of(path);
    if chars.len() == 0 {
        return Err(SyncProtocolError::InvalidPath(owned("Path cannot be empty")));
    }
    if find_char(chars.as_slice(), '\0', 0).is_some() {
        return Err(SyncProtocolError::InvalidPath(owned("Path cannot contain NUL byte")));
    }
    if !allow_comma && find_char(chars.as_slice(), ',', 0).is_some() {
        return Err(
            SyncProtocolError::InvalidPath(owned("Path cannot contain ',' in V1 SEND request")),
        );
    }
    if path.as_bytes().len() as u64 > u32::MAX as u64 {
        return Err(SyncProtocolError::InvalidPath(owned("Path length exceeds u32::MAX")));
    }
    Ok(())
}

/// `n` inside the range of a `u32`, or the nearer end of that range.
pub open spec fn clamp_u32(n: int) -> int {
    if n < 0 {
        0
    } else if n > u32::MAX {
        u32::MAX as int
    } else {
        n
    }
}

/// Converts a timestamp to 32 bits, to the nearest that they hold.
pub fn saturating_mtime_u32(mtime: i64) -> (r: u32)
    ensures
        r == clamp_u32(mtime as int),
{
    if mtime < 0 {
        0
    } else if mtime > u32::MAX as i64 {
        u32::MAX
    } else {
        mtime as u32
    }
}

/// ADB Sync request/response header (8 bytes)
#[derive(Debug, Clone, Copy, PartialEq, Eq, Structural)]
pub struct SyncMessageHeader {
    pub id: u32,
    pub length: u32,
}

/// An identifier and a length, least significant byte first.
pub open spec fn sync_header(id: u32, length: u32) -> Seq<u8> {
    le_bytes(id as nat, 4) + le_bytes(length as nat, 4)
}

/// The error for a buffer that is shorter than `expected`.
pub open spec fn too_short<T>(expected: int, buf: Seq<u8>) -> Result<T, SyncErrorModel> {
    Err(SyncErrorModel::HeaderTooShort { expected, got: buf.len() as int })
}

/// What a sync result says.
pub open spec fn sync_result<T>(r: Result<T, SyncProtocolError>) -> Result<T, SyncErrorModel> {
    match r {
        Ok(v) => Ok(v),
        Err(e) => Err(e@),
    }
}

/// The header at the front of a buffer.
pub open spec fn sync_header_in(buf: Seq<u8>) -> Result<SyncMessageHeader, SyncErrorModel> {
    if buf.len() < 8 {
        too_short(8, buf)
    } else {
        Ok(SyncMessageHeader { id: u32_at(buf, 0), length: u32_at(buf, 4) })
    }
}

impl SyncMessageHeader {
    /// The number of bytes of a header.
    pub const SIZE: usize = 8;

    /// A header.
    pub fn new(id: u32, length: u32) -> (h: SyncMessageHeader)
        ensures
            h == (SyncMessageHeader { id, length }),
    {
        SyncMessageHeader { id, length }
    }

    /// Writes the header.
    pub fn encode(&self, out: &mut [u8; 8])
        ensures
            final(out)@ == sync_header(self.id, self.length),
    {
        let a = u32_bytes(self.id);
        let b = u32_bytes(self.length);
        let mut i: usize = 0;
        while i < 4
            invariant
                i <= 4,
                forall|k: int| 0 <= k < i ==> out@[k] == a@[k],
                forall|k: int| 0 <= k < i ==> out@[4 + k] == b@[k],
            decreases 4 - i,
        {
            out[i] = a[i];
            out[4 + i] = b[i];
            i = i + 1;
        }
        assert(out@ =~= a@ + b@);
    }

    /// Reads a header from the front of a buffer.
    pub fn decode(buf: &[u8]) -> (r: Result<SyncMessageHeader, SyncProtocolError>)
        ensures
            sync_result(r) == sync_header_in(buf@),
    {
        if buf.len() < Self::SIZE {
            return Err(
                SyncProtocolError::HeaderTooShort { expected: Self::SIZE, got: buf.len() },
            );
        }
        let id: u32 = read_u32(buf, 0);
        let length: u32 = read_u32(buf, 4);
        Ok(SyncMessageHeader { id, length })
    }
}

/// Reading the bytes of a header, whatever follows them, gives the header back.
pub proof fn sync_header_round_trip(h: SyncMessageHeader, rest: Seq<u8>)
    ensures
        sync_header(h.id, h.length).len() == 8,
        sync_header_in(sync_header(h.id, h.length) + rest) == Ok::<
            SyncMessageHeader,
            SyncErrorModel,
        >(h),
{
    lemma_u32_round_trip(h.id);
    lemma_u32_round_trip(h.length);
    let b = sync_header(h.id, h.length) + rest;
    assert(b.subrange(0, 4) =~= le_bytes(h.id as nat, 4));
    assert(b.subrange(4, 8) =~= le_bytes(h.length as nat, 4));
}

/// ADB STAT response struct (12 bytes payload after STAT header)
#[derive(Debug, Clone, Copy, PartialEq, Eq, Structural)]
pub struct SyncStatResponse {
    pub mode: u32,
    pub size: u32,
    pub mtime: u32,
}

/// The bytes of a STAT response.
pub open spec fn stat_bytes(s: SyncStatResponse) -> Seq<u8> {
    le_bytes(s.mode as nat, 4) + le_bytes(s.size as nat, 4) + le_bytes(s.mtime as nat, 4)
}

/// The STAT response at the front of a buffer.
pub open spec fn stat_in(buf: Seq<u8>) -> Result<SyncStatResponse, SyncErrorModel> {
    if buf.len() < 12 {
        too_short(12, buf)
    } else {
        Ok(
            SyncStatResponse {
                mode: u32_at(buf, 0),
                size: u32_at(buf, 4),
                mtime: u32_at(buf, 8),
            },
        )
    }
}

/// Reading the bytes of a STAT response gives the response back.
pub proof fn stat_round_trip(s: SyncStatResponse)
    ensures
        stat_bytes(s).len() == 12,
        stat_in(stat_bytes(s)) == Ok::<SyncStatResponse, SyncErrorModel>(s),
{
    lemma_u32_round_trip(s.mode);
    lemma_u32_round_trip(s.size);
    lemma_u32_round_trip(s.mtime);
    let b = stat_bytes(s);
    assert(b.subrange(0, 4) =~= le_bytes(s.mode as nat, 4));
    assert(b.subrange(4, 8) =~= le_bytes(s.size as nat, 4));
    assert(b.subrange(8, 12) =~= le_bytes(s.mtime as nat, 4));
}

impl SyncStatResponse {
    /// The number of bytes of a response.
    pub const SIZE: usize = 12;

    /// Whether the path exists: one that does not has nothing but zeros.
    pub fn path_exists(&self) -> (r: bool)
        ensures
            r == (self.mode != 0 || self.size != 0 || self.mtime != 0),
    {
        self.mode != 0 || self.size != 0 || self.mtime != 0
    }

    /// Reads a response from the front of a buffer.
    pub fn decode(buf: &[u8]) -> (r: Result<SyncStatResponse, SyncProtocolError>)
        ensures
            sync_result(r) == stat_in(buf@),
    {
        if buf.len() < Self::SIZE {
            return Err(
                SyncProtocolError::HeaderTooShort { expected: Self::SIZE, got: buf.len() },
            );
        }
        let mode: u32 = read_u32(buf, 0);
        let size: u32 = read_u32(buf, 4);
        let mtime: u32 = read_u32(buf, 8);
        Ok(SyncStatResponse { mode, size, mtime })
    }

    /// Writes the response.
    pub fn encode(&self, out: &mut [u8; 12])
        ensures
            final(out)@ == stat_bytes(*self),
    {
        let a = u32_bytes(self.mode);
        let b = u32_bytes(self.size);
        let c = u32_bytes(self.mtime);
        let mut i: usize = 0;
        while i < 4
            invariant
                i <= 4,
                forall|k: int| 0 <= k < i ==> out@[k] == a@[k],
                forall|k: int| 0 <= k < i ==> out@[4 + k] == b@[k],
                forall|k: int| 0 <= k < i ==> out@[8 + k] == c@[k],
            decreases 4 - i,
        {
            out[i] = a[i];
            out[4 + i] = b[i];
            out[8 + i] = c[i];
            i = i + 1;
        }
        assert(out@ =~= a@ + b@ + c@);
    }
}

/// ADB STAT_V2 / LSTAT_V2 response struct (72 bytes)
#[derive(Debug, Clone, Copy, PartialEq, Eq, Structural)]
pub struct SyncStatV2Response {
    pub id: u32,
    pub error: u32,
    pub dev: u64,
    pub ino: u64,
    pub mode: u32,
    pub nlink: u32,
    pub uid: u32,
    pub gid: u32,
    pub size: u64,
    pub atime: i64,
    pub mtime: i64,
    pub ctime: i64,
}

/// The bytes of a STAT_V2 response.
pub open spec fn stat_v2_bytes(s: SyncStatV2Response) -> Seq<u8> {
    le_bytes(s.id as nat, 4) + le_bytes(s.error as nat, 4) + le_bytes(s.dev as nat, 8) + le_bytes(
        s.ino as nat,
        8,
    ) + le_bytes(s.mode as nat, 4) + le_bytes(s.nlink as nat, 4) + le_bytes(s.uid as nat, 4)
        + le_bytes(s.gid as nat, 4) + le_bytes(s.size as nat, 8) + le_bytes(
        unsigned_64(s.atime as int),
        8,
    ) + le_bytes(unsigned_64(s.mtime as int), 8) + le_bytes(unsigned_64(s.ctime as int), 8)
}

/// The number in the eight bytes from `at` on.
pub open spec fn u64_at(buf: Seq<u8>, at: int) -> u64 {
    le_value(buf.subrange(at, at + 8)) as u64
}

/// The number in two's complement in the eight bytes from `at` on.
pub open spec fn i64_at(buf: Seq<u8>, at: int) -> i64 {
    signed_64(le_value(buf.subrange(at, at + 8))) as i64
}

/// The STAT_V2 response at the front of a buffer of at least 72 bytes.
pub open spec fn stat_v2_fields(buf: Seq<u8>) -> SyncStatV2Response {
    SyncStatV2Response {
        id: u32_at(buf, 0),
        error: u32_at(buf, 4),
        dev: u64_at(buf, 8),
        ino: u64_at(buf, 16),
        mode: u32_at(buf, 24),
        nlink: u32_at(buf, 28),
        uid: u32_at(buf, 32),
        gid: u32_at(buf, 36),
        size: u64_at(buf, 40),
        atime: i64_at(buf, 48),
        mtime: i64_at(buf, 56),
        ctime: i64_at(buf, 64),
    }
}

/// The STAT_V2 response at the front of a buffer.
pub open spec fn stat_v2_in(buf: Seq<u8>) -> Result<SyncStatV2Response, SyncErrorModel> {
    if buf.len() < 72 {
        too_short(72, buf)
    } else {
        Ok(stat_v2_fields(buf))
    }
}

/// Reading the bytes of a STAT_V2 response, whatever follows them, gives the response back.
pub proof fn stat_v2_round_trip(s: SyncStatV2Response, rest: Seq<u8>)
    ensures
        stat_v2_bytes(s).len() == 72,
        stat_v2_in(stat_v2_bytes(s) + rest) == Ok::<SyncStatV2Response, SyncErrorModel>(s),
{
    lemma_u32_round_trip(s.id);
    lemma_u32_round_trip(s.error);
    lemma_u64_round_trip(s.dev);
    lemma_u64_round_trip(s.ino);
    lemma_u32_round_trip(s.mode);
    lemma_u32_round_trip(s.nlink);
    lemma_u32_round_trip(s.uid);
    lemma_u32_round_trip(s.gid);
    lemma_u64_round_trip(s.size);
    lemma_i64_round_trip(s.atime);
    lemma_i64_round_trip(s.mtime);
    lemma_i64_round_trip(s.ctime);
    let b = stat_v2_bytes(s) + rest;
    assert(b.subrange(0, 4) =~= le_bytes(s.id as nat, 4));
    assert(b.subrange(4, 8) =~= le_bytes(s.error as nat, 4));
    assert(b.subrange(8, 16) =~= le_bytes(s.dev as nat, 8));
    assert(b.subrange(16, 24) =~= le_bytes(s.ino as nat, 8));
    assert(b.subrange(24, 28) =~= le_bytes(s.mode as nat, 4));
    assert(b.subrange(28, 32) =~= le_bytes(s.nlink as nat, 4));
    assert(b.subrange(32, 36) =~= le_bytes(s.uid as nat, 4));
    assert(b.subrange(36, 40) =~= le_bytes(s.gid as nat, 4));
    assert(b.subrange(40, 48) =~= le_bytes(s.size as nat, 8));
    assert(b.subrange(48, 56) =~= le_bytes(unsigned_64(s.atime as int), 8));
    assert(b.subrange(56, 64) =~= le_bytes(unsigned_64(s.mtime as int), 8));
    assert(b.subrange(64, 72) =~= le_bytes(unsigned_64(s.ctime as int), 8));
}

impl SyncStatV2Response {
    /// The number of bytes of a response.
    pub const SIZE: usize = 72;

    /// Whether the device reports no error.
    pub fn is_ok(&self) -> (r: bool)
        ensures
            r == (self.error == 0),
    {
        self.error == 0
    }

    /// The modification time in 32 bits, to the nearest that they hold.
    pub fn mtime_u32(&self) -> (r: u32)
        ensures
            r == clamp_u32(self.mtime as int),
    {
        saturating_mtime_u32(self.mtime)
    }

    /// Reads a response from the front of a buffer.
    pub fn decode(buf: &[u8]) -> (r: Result<SyncStatV2Response, SyncProtocolError>)
        ensures
            sync_result(r) == stat_v2_in(buf@),
    {
        if buf.len() < Self::SIZE {
            return Err(
                SyncProtocolError::HeaderTooShort { expected: Self::SIZE, got: buf.len() },
            );
        }
        let id: u32 = read_u32(buf, 0);
        let error: u32 = read_u32(buf, 4);
        let dev: u64 = read_u64(buf, 8);
        let ino: u64 = read_u64(buf, 16);
        let mode: u32 = read_u32(buf, 24);
        let nlink: u32 = read_u32(buf, 28);
        let uid: u32 = read_u32(buf, 32);
        let gid: u32 = read_u32(buf, 36);
        let size: u64 = read_u64(buf, 40);
        let atime: i64 = read_i64(buf, 48);
        let mtime: i64 = read_i64(buf, 56);
        let ctime: i64 = read_i64(buf, 64);
        Ok(
            SyncStatV2Response {
                id,
                error,
                dev,
                ino,
                mode,
                nlink,
                uid,
                gid,
                size,
                atime,
                mtime,
                ctime,
            },
        )
    }

    fn push_to(&self, out: &mut Vec<u8>)
        ensures
            final(out)@ == old(out)@ + stat_v2_bytes(*self),
    {
        push_u32(out, self.id);
        push_u32(out, self.error);
        push_u64(out, self.dev);
        push_u64(out, self.ino);
        push_u32(out, self.mode);
        push_u32(out, self.nlink);
        push_u32(out, self.uid);
        push_u32(out, self.gid);
        push_u64(out, self.size);
        push_i64(out, self.atime);
        push_i64(out, self.mtime);
        push_i64(out, self.ctime);
        assert(out@ =~= old(out)@ + stat_v2_bytes(*self));
    }

    /// Writes the response.
    pub fn encode(&self, out: &mut [u8; 72])
        ensures
            final(out)@ == stat_v2_bytes(*self),
    {
        let mut bytes: Vec<u8> = Vec::new();
        self.push_to(&mut bytes);
        proof {
            stat_v2_round_trip(*self, seq![]);
        }
        assert(bytes@ =~= stat_v2_bytes(*self));
        let mut i: usize = 0;
        while i < 72
            invariant
                i <= 72,
                bytes@.len() == 72,
                forall|k: int| 0 <= k < i ==> out@[k] == bytes@[k],
            decreases 72 - i,
        {
            out[i] = bytes[i];
            i = i + 1;
        }
        assert(out@ =~= bytes@);
    }
}

/// A request that is a path: a header with its length and the path itself.
pub open spec fn path_request(id: u32, path: Seq<char>) -> Seq<u8> {
    sync_header(id, encode_utf8(path).len() as u32) + encode_utf8(path)
}

fn push_path_request(id: u32, path: &str, out: &mut Vec<u8>) -> (r: Result<(), SyncProtocolError>)
    ensures
        match path_error(path@, true) {
            Some(m) => final(out)@ == old(out)@ && (r matches Err(e) && e@
                == SyncErrorModel::InvalidPath(m)),
            None => r is Ok && final(out)@ == old(out)@ + path_request(id, path@),
        },
{
    validate_path(path, true)?;
    let bytes = path.as_bytes();
    push_u32(out, id);
    push_u32(out, bytes.len() as u32);
    push_bytes(out, bytes);
    assert(out@ =~= old(out)@ + path_request(id, path@));
    Ok(())
}

/// A path, a comma and a mode in decimal.
pub open spec fn send_text(path: Seq<char>, mode: u32) -> Seq<char> {
    path + ","@ + dec(mode as nat)
}

/// Appends the request to send a file: its path and its mode.
pub fn build_sync_send_req(remote_path: &str, mode: u32, out: &mut Vec<u8>) -> (r: Result<
    (),
    SyncProtocolError,
>)
    ensures
        match path_error(remote_path@, false) {
            Some(m) => final(out)@ == old(out)@ && (r matches Err(e) && e@
                == SyncErrorModel::InvalidPath(m)),
            None => {
                let text = send_text(remote_path@, mode);
                if encode_utf8(text).len() > u32::MAX {
                    final(out)@ == old(out)@ && (r matches Err(e) && e@
                        == SyncErrorModel::InvalidPath("Request payload length exceeds u32::MAX"@))
                } else {
                    r is Ok && final(out)@ == old(out)@ + path_request(SYNC_SEND, text)
                }
            },
        },
{
    validate_path(remote_path, false)?;
    let mut req = String::new();
    req.append(remote_path);
    req.append(",");
    req.append(decimal(mode as u64).as_str());
    assert(req@ =~= send_text(remote_path@, mode));
    let bytes = req.as_str().as_bytes();
    if bytes.len() as u64 > u32::MAX as u64 {
        return Err(
            SyncProtocolError::InvalidPath(owned("Request payload length exceeds u32::MAX")),
        );
    }
    push_u32(out, SYNC_SEND);
    push_u32(out, bytes.len() as u32);
    push_bytes(out, bytes);
    assert(out@ =~= old(out)@ + path_request(SYNC_SEND, req@));
    Ok(())
}

/// As a path with a comma is refused, the text of a request names one path and one mode.
pub proof fn send_request_is_unambiguous(p: Seq<char>, m: u32, q: Seq<char>, n: u32)
    requires
        !has_char(p, ','),
        !has_char(q, ','),
        send_text(p, m) == send_text(q, n),
    ensures
        p == q,
        m == n,
{
    reveal_strlit(",");
    let t = send_text(p, m);
    lemma_find_from(p, ',', 0);
    lemma_find_from(q, ',', 0);
    assert(t[p.len() as int] == ',');
    assert(t[q.len() as int] == ',');
    if p.len() < q.len() {
        assert(t[p.len() as int] == q[p.len() as int]);
    }
    if q.len() < p.len() {
        assert(t[q.len() as int] == p[q.len() as int]);
    }
    assert(p =~= t.subrange(0, p.len() as int));
    assert(q =~= t.subrange(0, q.len() as int));
    assert(dec(m as nat) =~= t.subrange(p.len() as int + 1, t.len() as int));
    assert(dec(n as nat) =~= t.subrange(q.len() as int + 1, t.len() as int));
    number_round_trip(m as nat, 10);
    number_round_trip(n as nat, 10);
}

/// A block of data behind its header.
pub open spec fn data_block(data: Seq<u8>) -> Seq<u8> {
    sync_header(SYNC_DATA, data.len() as u32) + data
}

/// Appends a block of data.
pub fn build_sync_data_chunk(chunk: &[u8], out: &mut Vec<u8>) -> (r: Result<(), SyncProtocolError>)
    ensures
        if chunk@.len() > u32::MAX {
            final(out)@ == old(out)@ && (r matches Err(e) && e@ == SyncErrorModel::InvalidMessage(
                "Data chunk size exceeds u32::MAX"@,
            ))
        } else {
            r is Ok && final(out)@ == old(out)@ + data_block(chunk@)
        },
{
    if chunk.len() as u64 > u32::MAX as u64 {
        return Err(SyncProtocolError::InvalidMessage(owned("Data chunk size exceeds u32::MAX")));
    }
    push_u32(out, SYNC_DATA);
    push_u32(out, chunk.len() as u32);
    push_bytes(out, chunk);
    assert(out@ =~= old(out)@ + data_block(chunk@));
    Ok(())
}

/// Appends the end of a file with its modification time.
pub fn build_sync_done(mtime: u32, out: &mut Vec<u8>) -> (r: Result<(), SyncProtocolError>)
    ensures
        r is Ok,
        final(out)@ == old(out)@ + sync_header(SYNC_DONE, mtime),
{
    push_u32(out, SYNC_DONE);
    push_u32(out, mtime);
    assert(out@ =~= old(out)@ + sync_header(SYNC_DONE, mtime));
    Ok(())
}

/// Appends the end of a file with its modification time, to the nearest that 32 bits hold.
pub fn build_sync_done_u64(mtime: u64, out: &mut Vec<u8>) -> (r: Result<(), SyncProtocolError>)
    ensures
        r is Ok,
        final(out)@ == old(out)@ + sync_header(SYNC_DONE, clamp_u32(mtime as int) as u32),
{
    let mtime_u32: u32 = if mtime > u32::MAX as u64 {
        u32::MAX
    } else {
        mtime as u32
    };
    build_sync_done(mtime_u32, out)
}

/// Appends the request to receive a file.
pub fn build_sync_recv_req(remote_path: &str, out: &mut Vec<u8>) -> (r: Result<
    (),
    SyncProtocolError,
>)
    ensures
        match path_error(remote_path@, true) {
            Some(m) => final(out)@ == old(out)@ && (r matches Err(e) && e@
                == SyncErrorModel::InvalidPath(m)),
            None => r is Ok && final(out)@ == old(out)@ + path_request(SYNC_RECV, remote_path@),
        },
{
    push_path_request(SYNC_RECV, remote_path, out)
}

/// Appends the request to list a directory.
pub fn build_sync_list_req(remote_path: &str, out: &mut Vec<u8>) -> (r: Result<
    (),
    SyncProtocolError,
>)
    ensures
        match path_error(remote_path@, true) {
            Some(m) => final(out)@ == old(out)@ && (r matches Err(e) && e@
                == SyncErrorModel::InvalidPath(m)),
            None => r is Ok && final(out)@ == old(out)@ + path_request(SYNC_LIST, remote_path@),
        },
{
    push_path_request(SYNC_LIST, remote_path, out)
}

/// Appends the request to describe a path.
pub fn build_sync_stat_req(remote_path: &str, out: &mut Vec<u8>) -> (r: Result<
    (),
    SyncProtocolError,
>)
    ensures
        match path_error(remote_path@, true) {
            Some(m) => final(out)@ == old(out)@ && (r matches Err(e) && e@
                == SyncErrorModel::InvalidPath(m)),
            None => r is Ok && final(out)@ == old(out)@ + path_request(SYNC_STAT, remote_path@),
        },
{
    push_path_request(SYNC_STAT, remote_path, out)
}

/// Appends a SEND_V2 setup packet: the path, then the identifier again, the mode and the
/// flags.
pub fn build_send_v2_req(path: &str, mode: u32, flags: u32, out: &mut Vec<u8>) -> (r: Result<
    (),
    SyncProtocolError,
>)
    ensures
        match path_error(path@, true) {
            Some(m) => final(out)@ == old(out)@ && (r matches Err(e) && e@
                == SyncErrorModel::InvalidPath(m)),
            None => r is Ok && final(out)@ == old(out)@ + path_request(SYNC_SEND_V2, path@)
                + le_bytes(SYNC_SEND_V2 as nat, 4) + le_bytes(mode as nat, 4) + le_bytes(
                flags as nat,
                4,
            ),
        },
{
    push_path_request(SYNC_SEND_V2, path, out)?;
    push_u32(out, SYNC_SEND_V2);
    push_u32(out, mode);
    push_u32(out, flags);
    Ok(())
}

/// Appends a RECV_V2 setup packet: the path, then the identifier again and the flags.
pub fn build_recv_v2_req(path: &str, flags: u32, out: &mut Vec<u8>) -> (r: Result<
    (),
    SyncProtocolError,
>)
    ensures
        match path_error(path@, true) {
            Some(m) => final(out)@ == old(out)@ && (r matches Err(e) && e@
                == SyncErrorModel::InvalidPath(m)),
            None => r is Ok && final(out)@ == old(out)@ + path_request(SYNC_RECV_V2, path@)
                + le_bytes(SYNC_RECV_V2 as nat, 4) + le_bytes(flags as nat, 4),
        },
{
    push_path_request(SYNC_RECV_V2, path, out)?;
    push_u32(out, SYNC_RECV_V2);
    push_u32(out, flags);
    Ok(())
}

/// Appends a block of compressed data.
pub fn build_sync_data_block(compressed_data: &[u8], out: &mut Vec<u8>) -> (r: Result<
    (),
    SyncProtocolError,
>)
    ensures
        if compressed_data@.len() > u32::MAX {
            final(out)@ == old(out)@ && (r matches Err(e) && e@ == SyncErrorModel::InvalidMessage(
                "Compressed data size exceeds u32::MAX"@,
            ))
        } else {
            r is Ok && final(out)@ == old(out)@ + data_block(compressed_data@)
        },
{
    if compressed_data.len() as u64 > u32::MAX as u64 {
        return Err(
            SyncProtocolError::InvalidMessage(owned("Compressed data size exceeds u32::MAX")),
        );
    }
    push_u32(out, SYNC_DATA);
    push_u32(out, compressed_data.len() as u32);
    push_bytes(out, compressed_data);
    assert(out@ =~= old(out)@ + data_block(compressed_data@));
    Ok(())
}

/// ADB DENT (directory entry) response struct (20 bytes header + namelen bytes name)
#[derive(Debug, Clone, PartialEq, Eq)]
pub struct SyncDentResponse {
    pub id: u32,
    pub mode: u32,
    pub size: u32,
    pub mtime: u32,
    pub namelen: u32,
    pub name: String,
}

/// What a directory entry says.
pub struct DentModel {
    pub id: u32,
    pub mode: u32,
    pub size: u32,
    pub mtime: u32,
    pub namelen: u32,
    pub name: Seq<char>,
}

impl View for SyncDentResponse {
    type V = DentModel;

    open spec fn view(&self) -> DentModel {
        DentModel {
            id: self.id,
            mode: self.mode,
            size: self.size,
            mtime: self.mtime,
            namelen: self.namelen,
            name: self.name@,
        }
    }
}

/// The bytes of a directory entry. The length is that of the name, whatever the entry says.
pub open spec fn dent_bytes(d: DentModel) -> Seq<u8> {
    le_bytes(d.id as nat, 4) + le_bytes(d.mode as nat, 4) + le_bytes(d.size as nat, 4) + le_bytes(
        d.mtime as nat,
        4,
    ) + le_bytes(encode_utf8(d.name).len(), 4) + encode_utf8(d.name)
}

/// The directory entry at the front of a buffer.
pub open spec fn dent_in(buf: Seq<u8>) -> Result<DentModel, SyncErrorModel> {
    let namelen = u32_at(buf, 16);
    if buf.len() < 20 {
        too_short(20, buf)
    } else if 20 + namelen > usize::MAX {
        Err(SyncErrorModel::InvalidMessage("Directory entry namelen addition overflowed"@))
    } else if buf.len() < 20 + namelen {
        too_short(20 + namelen, buf)
    } else {
        Ok(
            DentModel {
                id: u32_at(buf, 0),
                mode: u32_at(buf, 4),
                size: u32_at(buf, 8),
                mtime: u32_at(buf, 12),
                namelen,
                name: lossy_text(buf.subrange(20, 20 + namelen)),
            },
        )
    }
}

/// What a result of reading a directory entry says.
pub open spec fn dent_result(r: Result<SyncDentResponse, SyncProtocolError>) -> Result<
    DentModel,
    SyncErrorModel,
> {
    match r {
        Ok(d) => Ok(d@),
        Err(e) => Err(e@),
    }
}

/// Reading the bytes of a directory entry, whatever follows them, gives the entry back.
pub proof fn dent_round_trip(d: DentModel, rest: Seq<u8>)
    requires
        d.namelen == encode_utf8(d.name).len(),
        20 + d.namelen <= usize::MAX,
    ensures
        dent_in(dent_bytes(d) + rest) == Ok::<DentModel, SyncErrorModel>(d),
{
    lemma_u32_round_trip(d.id);
    lemma_u32_round_trip(d.mode);
    lemma_u32_round_trip(d.size);
    lemma_u32_round_trip(d.mtime);
    lemma_u32_round_trip(d.namelen);
    utf8_round_trip(d.name);
    let b = dent_bytes(d) + rest;
    assert(b.subrange(0, 4) =~= le_bytes(d.id as nat, 4));
    assert(b.subrange(4, 8) =~= le_bytes(d.mode as nat, 4));
    assert(b.subrange(8, 12) =~= le_bytes(d.size as nat, 4));
    assert(b.subrange(12, 16) =~= le_bytes(d.mtime as nat, 4));
    assert(b.subrange(16, 20) =~= le_bytes(d.namelen as nat, 4));
    assert(b.subrange(20, 20 + d.namelen) =~= encode_utf8(d.name));
}

impl SyncDentResponse {
    /// The number of bytes before the name.
    pub const HEADER_SIZE: usize = 20;

    /// Reads an entry from the front of a buffer.
    pub fn decode(buf: &[u8]) -> (r: Result<SyncDentResponse, SyncProtocolError>)
        ensures
            dent_result(r) == dent_in(buf@),
    {
        if buf.len() < Self::HEADER_SIZE {
            return Err(
                SyncProtocolError::HeaderTooShort { expected: Self::HEADER_SIZE, got: buf.len() },
            );
        }
        let id: u32 = read_u32(buf, 0);
        let mode: u32 = read_u32(buf, 4);
        let size: u32 = read_u32(buf, 8);
        let mtime: u32 = read_u32(buf, 12);
        let namelen: u32 = read_u32(buf, 16);
        let total: usize = match Self::HEADER_SIZE.checked_add(namelen as usize) {
            Some(t) => t,
            None => {
                return Err(
                    SyncProtocolError::InvalidMessage(
                        owned("Directory entry namelen addition overflowed"),
                    ),
                );
            },
        };
        if buf.len() < total {
            return Err(SyncProtocolError::HeaderTooShort { expected: total, got: buf.len() });
        }
        let name = from_utf8_lossy(vstd::slice::slice_subrange(buf, 20, total));
        Ok(SyncDentResponse { id, mode, size, mtime, namelen, name })
    }

    /// The number of bytes of the entry, as far as the machine counts.
    pub fn total_size(&self) -> (r: usize)
        ensures
            r == if 20 + self.namelen <= usize::MAX {
                20 + self.namelen
            } else {
                usize::MAX as int
            },
    {
        Self::HEADER_SIZE.saturating_add(self.namelen as usize)
    }

    /// Appends the entry.
    pub fn encode(&self, out: &mut Vec<u8>) -> (r: Result<(), SyncProtocolError>)
        ensures
            if encode_utf8(self.name@).len() > u32::MAX {
                final(out)@ == old(out)@ && (r matches Err(e) && e@
                    == SyncErrorModel::InvalidMessage("Entry name length exceeds u32::MAX"@))
            } else {
                r is Ok && final(out)@ == old(out)@ + dent_bytes(self@)
            },
    {
        let name_bytes = self.name.as_str().as_bytes();
        if name_bytes.len() as u64 > u32::MAX as u64 {
            return Err(
                SyncProtocolError::InvalidMessage(owned("Entry name length exceeds u32::MAX")),
            );
        }
        push_u32(out, self.id);
        push_u32(out, self.mode);
        push_u32(out, self.size);
        push_u32(out, self.mtime);
        push_u32(out, name_bytes.len() as u32);
        push_bytes(out, name_bytes);
        assert(out@ =~= old(out)@ + dent_bytes(self@));
        Ok(())
    }
}

/// ADB DENT_V2 response struct (76 bytes header + namelen bytes name)
#[derive(Debug, Clone, PartialEq, Eq)]
pub struct SyncDentV2Response {
    pub stat: SyncStatV2Response,
    pub namelen: u32,
    pub name: String,
}

/// What a directory entry of the second version says.
pub struct DentV2Model {
    pub stat: SyncStatV2Response,
    pub namelen: u32,
    pub name: Seq<char>,
}

impl View for SyncDentV2Response {
    type V = DentV2Model;

    open spec fn view(&self) -> DentV2Model {
        DentV2Model { stat: self.stat, namelen: self.namelen, name: self.name@ }
    }
}

/// The bytes of a directory entry. The length is that of the name, whatever the entry says.
pub open spec fn dent_v2_bytes(d: DentV2Model) -> Seq<u8> {
    stat_v2_bytes(d.stat) + le_bytes(encode_utf8(d.name).len(), 4) + encode_utf8(d.name)
}

/// The directory entry at the front of a buffer.
pub open spec fn dent_v2_in(buf: Seq<u8>) -> Result<DentV2Model, SyncErrorModel> {
    let namelen = u32_at(buf, 72);
    if buf.len() < 76 {
        too_short(76, buf)
    } else if 76 + namelen > usize::MAX {
        Err(SyncErrorModel::InvalidMessage("Directory entry V2 namelen addition overflowed"@))
    } else if buf.len() < 76 + namelen {
        too_short(76 + namelen, buf)
    } else {
        Ok(
            DentV2Model {
                stat: stat_v2_fields(buf),
                namelen,
                name: lossy_text(buf.subrange(76, 76 + namelen)),
            },
        )
    }
}

/// What a result of reading a directory entry says.
pub open spec fn dent_v2_result(r: Result<SyncDentV2Response, SyncProtocolError>) -> Result<
    DentV2Model,
    SyncErrorModel,
> {
    match r {
        Ok(d) => Ok(d@),
        Err(e) => Err(e@),
    }
}

/// Reading the bytes of a directory entry, whatever follows them, gives the entry back.
pub proof fn dent_v2_round_trip(d: DentV2Model, rest: Seq<u8>)
    requires
        d.namelen == encode_utf8(d.name).len(),
        76 + d.namelen <= usize::MAX,
    ensures
        dent_v2_in(dent_v2_bytes(d) + rest) == Ok::<DentV2Model, SyncErrorModel>(d),
{
    let tail = le_bytes(encode_utf8(d.name).len(), 4) + encode_utf8(d.name) + rest;
    let b = dent_v2_bytes(d) + rest;
    assert(b =~= stat_v2_bytes(d.stat) + tail);
    stat_v2_round_trip(d.stat, tail);
    lemma_u32_round_trip(d.namelen);
    utf8_round_trip(d.name);
    assert(b.subrange(72, 76) =~= le_bytes(d.namelen as nat, 4));
    assert(b.subrange(76, 76 + d.namelen) =~= encode_utf8(d.name));
}

impl SyncDentV2Response {
    /// The number of bytes before the name.
    pub const HEADER_SIZE: usize = 76;

    /// Reads an entry from the front of a buffer.
    pub fn decode(buf: &[u8]) -> (r: Result<SyncDentV2Response, SyncProtocolError>)
        ensures
            dent_v2_result(r) == dent_v2_in(buf@),
    {
        if buf.len() < Self::HEADER_SIZE {
            return Err(
                SyncProtocolError::HeaderTooShort { expected: Self::HEADER_SIZE, got: buf.len() },
            );
        }
        let stat = SyncStatV2Response::decode(buf)?;
        let namelen: u32 = read_u32(buf, 72);
        let total: usize = match Self::HEADER_SIZE.checked_add(namelen as usize) {
            Some(t) => t,
            None => {
                return Err(
                    SyncProtocolError::InvalidMessage(
                        owned("Directory entry V2 namelen addition overflowed"),
                    ),
                );
            },
        };
        if buf.len() < total {
            return Err(SyncProtocolError::HeaderTooShort { expected: total, got: buf.len() });
        }
        let name = from_utf8_lossy(vstd::slice::slice_subrange(buf, 76, total));
        Ok(SyncDentV2Response { stat, namelen, name })
    }

    /// The number of bytes of the entry, as far as the machine counts.
    pub fn total_size(&self) -> (r: usize)
        ensures
            r == if 76 + self.namelen <= usize::MAX {
                76 + self.namelen
            } else {
                usize::MAX as int
            },
    {
        Self::HEADER_SIZE.saturating_add(self.namelen as usize)
    }

    /// Appends the entry.
    pub fn encode(&self, out: &mut Vec<u8>) -> (r: Result<(), SyncProtocolError>)
        ensures
            if encode_utf8(self.name@).len() > u32::MAX {
                final(out)@ == old(out)@ && (r matches Err(e) && e@
                    == SyncErrorModel::InvalidMessage("Entry V2 name length exceeds u32::MAX"@))
            } else {
                r is Ok && final(out)@ == old(out)@ + dent_v2_bytes(self@)
            },
    {
        let name_bytes = self.name.as_str().as_bytes();
        if name_bytes.len() as u64 > u32::MAX as u64 {
            return Err(
                SyncProtocolError::InvalidMessage(owned("Entry V2 name length exceeds u32::MAX")),
            );
        }
        self.stat.push_to(out);
        push_u32(out, name_bytes.len() as u32);
        push_bytes(out, name_bytes);
        assert(out@ =~= old(out)@ + dent_v2_bytes(self@));
        Ok(())
    }
}

/// The two numbers of a header, the three of a file's state and the twelve of its long form stand
/// one behind the other in this order; of the last three the upper half are negative.
pub proof fn numbers_stand_in_their_places(buf: Seq<u8>)
    ensures
        match sync_header_in(buf) {
            Ok(h) => buf.len() >= 8 && h.id == word_at(buf, 0) && h.length == word_at(buf, 4),
            Err(_) => buf.len() < 8,
        },
        match stat_in(buf) {
            Ok(s) => buf.len() >= 12 && s.mode == word_at(buf, 0) && s.size == word_at(buf, 4)
                && s.mtime == word_at(buf, 8),
            Err(_) => buf.len() < 12,
        },
        match stat_v2_in(buf) {
            Ok(s) => {
                &&& buf.len() >= 72
                &&& s.id == word_at(buf, 0)
                &&& s.error == word_at(buf, 4)
                &&& s.dev == long_at(buf, 8)
                &&& s.ino == long_at(buf, 16)
                &&& s.mode == word_at(buf, 24)
                &&& s.nlink == word_at(buf, 28)
                &&& s.uid == word_at(buf, 32)
                &&& s.gid == word_at(buf, 36)
                &&& s.size == long_at(buf, 40)
                &&& s.atime == (if s.atime < 0 {
                    long_at(buf, 48) - 0x1_0000_0000_0000_0000
                } else {
                    long_at(buf, 48) as int
                })
                &&& s.mtime == (if s.mtime < 0 {
                    long_at(buf, 56) - 0x1_0000_0000_0000_0000
                } else {
                    long_at(buf, 56) as int
                })
                &&& s.ctime == (if s.ctime < 0 {
                    long_at(buf, 64) - 0x1_0000_0000_0000_0000
                } else {
                    long_at(buf, 64) as int
                })
            },
            Err(_) => buf.len() < 72,
        },
        match dent_in(buf) {
            Ok(d) => {
                &&& buf.len() >= 20 + word_at(buf, 16)
                &&& d.id == word_at(buf, 0)
                &&& d.mode == word_at(buf, 4)
                &&& d.size == word_at(buf, 8)
                &&& d.mtime == word_at(buf, 12)
                &&& d.namelen == word_at(buf, 16)
                &&& d.name == lossy_text(buf.subrange(20, 20 + word_at(buf, 16) as int))
            },
            Err(_) => buf.len() < 20 || buf.len() < 20 + word_at(buf, 16) || 20 + word_at(buf, 16)
                > usize::MAX,
        },
        match dent_v2_in(buf) {
            Ok(d) => {
                &&& buf.len() >= 76 + word_at(buf, 72)
                &&& stat_v2_in(buf) == Ok::<SyncStatV2Response, SyncErrorModel>(d.stat)
                &&& d.namelen == word_at(buf, 72)
                &&& d.name == lossy_text(buf.subrange(76, 76 + word_at(buf, 72) as int))
            },
            Err(_) => buf.len() < 76 || buf.len() < 76 + word_at(buf, 72) || 76 + word_at(buf, 72)
                > usize::MAX,
        },
{
    lemma_words(buf);
    lemma_longs(buf);
}

proof fn lemma_words(buf: Seq<u8>)
    ensures
        forall|at: int|
            0 <= at && at + 4 <= buf.len() ==> #[trigger] u32_at(buf, at) == word_at(buf, at),
{
    assert forall|at: int| 0 <= at && at + 4 <= buf.len() implies #[trigger] u32_at(buf, at)
        == word_at(buf, at) by {
        numbers_are_little_endian(buf, at);
    }
}

proof fn lemma_longs(buf: Seq<u8>)
    ensures
        forall|at: int|
            0 <= at && at + 8 <= buf.len() ==> #[trigger] u64_at(buf, at) == long_at(buf, at),
        forall|at: int|
            0 <= at && at + 8 <= buf.len() ==> #[trigger] i64_at(buf, at) == if i64_at(buf, at) < 0 {
                long_at(buf, at) - 0x1_0000_0000_0000_0000
            } else {
                long_at(buf, at) as int
            },
{
    assert forall|at: int| 0 <= at && at + 8 <= buf.len() implies #[trigger] u64_at(buf, at)
        == long_at(buf, at) by {
        numbers_are_little_endian(buf, at);
    }
    assert forall|at: int| 0 <= at && at + 8 <= buf.len() implies #[trigger] i64_at(buf, at)
        == if i64_at(buf, at) < 0 {
        long_at(buf, at) - 0x1_0000_0000_0000_0000
    } else {
        long_at(buf, at) as int
    } by {
        numbers_are_little_endian(buf, at);
    }
}

/// A request for a path is the number of the request, the length of the path in bytes, and the
/// path.
pub proof fn requests_are_laid_out(id: u32, path: Seq<char>)
    requires
        encode_utf8(path).len() <= u32::MAX,
    ensures
        ({
            let b = path_request(id, path);
            &&& b.len() == 8 + encode_utf8(path).len()
            &&& word_at(b, 0) == id
            &&& word_at(b, 4) == encode_utf8(path).len()
            &&& b.skip(8) == encode_utf8(path)
        }),
{
    let b = path_request(id, path);
    let n = encode_utf8(path).len() as u32;
    let h = SyncMessageHeader { id, length: n };
    sync_header_round_trip(h, encode_utf8(path));
    numbers_stand_in_their_places(b);
    assert(b.skip(8) =~= encode_utf8(path));
}

/// What is sent with a file is its path, a comma, and its mode in decimal digits.
pub proof fn path_and_mode_are_sent(path: Seq<char>, mode: u32)
    ensures
        send_text(path, mode).take(path.len() as int) == path,
        send_text(path, mode)[path.len() as int] == ',',
        number_value(send_text(path, mode).skip(path.len() as int + 1), 10) == mode,
{
    reveal_strlit(",");
    let t = send_text(path, mode);
    number_round_trip(mode as nat, 10);
    assert(t.take(path.len() as int) =~= path);
    assert(t.skip(path.len() as int + 1) =~= dec(mode as nat));
}

/// A path is refused exactly where it is empty, holds a NUL, is too long, or holds a comma where
/// that would end it; and the reason is told.
pub proof fn paths_are_checked(path: Seq<char>, allow_comma: bool)
    ensures
        path_error(path, allow_comma) is None <==> path.len() > 0 && !path.contains('\0') && (
        allow_comma || !path.contains(',')) && encode_utf8(path).len() <= u32::MAX,
        path.len() == 0 ==> path_error(path, allow_comma) == Some("Path cannot be empty"@),
        path.contains('\0') ==> path_error(path, allow_comma) == Some(
            "Path cannot contain NUL byte"@,
        ),
        path.contains(',') && !path.contains('\0') && !allow_comma ==> path_error(
            path,
            allow_comma,
        ) == Some("Path cannot contain ',' in V1 SEND request"@),
{
    lemma_find_from(path, '\0', 0);
    lemma_find_from(path, ',', 0);
    if path.contains('\0') {
        let i = path.index_of('\0');
        assert(path[i] == '\0');
    }
    if path.contains(',') {
        let i = path.index_of(',');
        assert(path[i] == ',');
    }
}

/// A time is kept where it fits, and is the nearest that fits otherwise.
pub proof fn times_are_clamped(n: int, m: int)
    ensures
        0 <= clamp_u32(n) <= u32::MAX,
        0 <= n <= u32::MAX ==> clamp_u32(n) == n,
        n <= m ==> clamp_u32(n) <= clamp_u32(m),
        n < 0 ==> clamp_u32(n) == 0,
        n > u32::MAX ==> clamp_u32(n) == u32::MAX,
{
}

} // verus!
