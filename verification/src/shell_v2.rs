//! Packets of the shell service, second version: a stream number, a length and a payload.

use crate::bytes::{
    half_at, le_bytes, le_value, lemma_u16_round_trip, lemma_u32_round_trip, low_u32, numbers_are_little_endian,
    push_bytes, push_u16, push_u32, read_u16, read_u32, truncate_len, word_at,
};
use crate::constants::{
    SHELL_ID_CLOSE_STDIN, SHELL_ID_EXIT, SHELL_ID_STDERR, SHELL_ID_STDIN, SHELL_ID_STDOUT, SHELL_ID_WINDOW_SIZE_CHANGE,
};
use crate::text::{dec, decimal};
use vstd::prelude::*;

verus! {

/// Why a packet was refused.
#[derive(Debug, PartialEq, Eq, Structural)]
pub enum ShellV2Error {
    /// Fewer than five bytes.
    HeaderTooShort,
    /// Fewer bytes than the length says.
    PayloadTooShort { expected: usize, got: usize },
    /// A stream number without a meaning.
    UnknownStreamId(u8),
}

impl ShellV2Error {
    /// The text of the error.
    pub open spec fn text(self) -> Seq<char> {
        match self {
            ShellV2Error::HeaderTooShort => "Packet incomplete: need at least 5 bytes header"@,
            ShellV2Error::PayloadTooShort { expected, got } =>
                "Packet payload too short: need "@ + dec(expected as nat) + " bytes, got "@ + dec(
                got as nat,
            ),
            ShellV2Error::UnknownStreamId(id) => "Unknown shell stream id: "@ + dec(id as nat),
        }
    }

    /// The text of the error.
    pub fn message(&self) -> (s: String)
        ensures
            s@ == self.text(),
    {
        let mut s = String::new();
        match self {
            ShellV2Error::HeaderTooShort => {
                s.append("Packet incomplete: need at least 5 bytes header");
            },
            ShellV2Error::PayloadTooShort { expected, got } => {
                s.append("Packet payload too short: need ");
                s.append(decimal(*expected as u64).as_str());
                s.append(" bytes, got ");
                s.append(decimal(*got as u64).as_str());
            },
            ShellV2Error::UnknownStreamId(id) => {
                s.append("Unknown shell stream id: ");
                s.append(decimal(*id as u64).as_str());
            },
        }
        assert(s@ =~= self.text());
        s
    }
}

/// A packet of the shell service.
#[derive(Debug, Clone, PartialEq, Eq)]
pub enum ShellV2Packet<'a> {
    Stdin(&'a [u8]),
    Stdout(&'a [u8]),
    Stderr(&'a [u8]),
    ExitCode(u8),
    CloseStdin,
    WindowSizeChange { rows: u16, cols: u16 },
}

/// What a packet says.
pub enum PacketModel {
    Stdin(Seq<u8>),
    Stdout(Seq<u8>),
    Stderr(Seq<u8>),
    ExitCode(u8),
    CloseStdin,
    WindowSizeChange { rows: u16, cols: u16 },
}

impl<'a> View for ShellV2Packet<'a> {
    type V = PacketModel;

    open spec fn view(&self) -> PacketModel {
        match *self {
            ShellV2Packet::Stdin(d) => PacketModel::Stdin(d@),
            ShellV2Packet::Stdout(d) => PacketModel::Stdout(d@),
            ShellV2Packet::Stderr(d) => PacketModel::Stderr(d@),
            ShellV2Packet::ExitCode(c) => PacketModel::ExitCode(c),
            ShellV2Packet::CloseStdin => PacketModel::CloseStdin,
            ShellV2Packet::WindowSizeChange { rows, cols } => PacketModel::WindowSizeChange {
                rows,
                cols,
            },
        }
    }
}

/// The packet of a stream number and a payload. A missing exit code is zero, and so is a
/// missing row or column count.
pub open spec fn packet_of(id: u8, payload: Seq<u8>) -> Option<PacketModel> {
    if id == SHELL_ID_STDIN {
        Some(PacketModel::Stdin(payload))
    } else if id == SHELL_ID_STDOUT {
        Some(PacketModel::Stdout(payload))
    } else if id == SHELL_ID_STDERR {
        Some(PacketModel::Stderr(payload))
    } else if id == SHELL_ID_EXIT {
        Some(
            PacketModel::ExitCode(
                if payload.len() > 0 {
                    payload[0]
                } else {
                    0
                },
            ),
        )
    } else if id == SHELL_ID_CLOSE_STDIN {
        Some(PacketModel::CloseStdin)
    } else if id == SHELL_ID_WINDOW_SIZE_CHANGE {
        Some(
            PacketModel::WindowSizeChange {
                rows: if payload.len() >= 2 {
                    le_value(payload.subrange(0, 2)) as u16
                } else {
                    0
                },
                cols: if payload.len() >= 4 {
                    le_value(payload.subrange(2, 4)) as u16
                } else {
                    0
                },
            },
        )
    } else {
        None
    }
}

/// The length of a payload, as the header gives it.
pub open spec fn payload_length(buf: Seq<u8>) -> int {
    le_value(buf.subrange(1, 5)) as int
}

/// The packet at the front of a buffer and the number of its bytes. Where a length is more
/// than the machine counts, the error reports the largest count.
pub open spec fn parse_spec(buf: Seq<u8>) -> Result<(PacketModel, int), ShellV2Error> {
    let len = payload_length(buf);
    if buf.len() < 5 {
        Err(ShellV2Error::HeaderTooShort)
    } else if buf.len() < 5 + len {
        Err(
            ShellV2Error::PayloadTooShort {
                expected: if 5 + len <= usize::MAX {
                    (5 + len) as usize
                } else {
                    usize::MAX
                },
                got: buf.len() as usize,
            },
        )
    } else {
        match packet_of(buf[0], buf.subrange(5, 5 + len)) {
            Some(p) => Ok((p, 5 + len)),
            None => Err(ShellV2Error::UnknownStreamId(buf[0])),
        }
    }
}

/// A stream number, the length of a payload modulo 2^32, and the payload.
pub open spec fn frame(id: u8, payload: Seq<u8>) -> Seq<u8> {
    seq![id] + le_bytes(low_u32(payload.len() as int) as nat, 4) + payload
}

/// The bytes of a packet.
pub open spec fn packet_bytes(p: PacketModel) -> Seq<u8> {
    match p {
        PacketModel::Stdin(d) => frame(SHELL_ID_STDIN, d),
        PacketModel::Stdout(d) => frame(SHELL_ID_STDOUT, d),
        PacketModel::Stderr(d) => frame(SHELL_ID_STDERR, d),
        PacketModel::ExitCode(c) => frame(SHELL_ID_EXIT, seq![c]),
        PacketModel::CloseStdin => frame(SHELL_ID_CLOSE_STDIN, seq![]),
        PacketModel::WindowSizeChange { rows, cols } => frame(
            SHELL_ID_WINDOW_SIZE_CHANGE,
            le_bytes(rows as nat, 2) + le_bytes(cols as nat, 2),
        ),
    }
}

/// The payload of a packet.
pub open spec fn payload_of(p: PacketModel) -> Seq<u8> {
    match p {
        PacketModel::Stdin(d) => d,
        PacketModel::Stdout(d) => d,
        PacketModel::Stderr(d) => d,
        PacketModel::ExitCode(c) => seq![c],
        PacketModel::CloseStdin => seq![],
        PacketModel::WindowSizeChange { rows, cols } => le_bytes(rows as nat, 2) + le_bytes(
            cols as nat,
            2,
        ),
    }
}

/// Parsing the bytes of a packet, whatever follows them, gives the packet back and counts
/// exactly its bytes.
pub proof fn packet_round_trip(p: PacketModel, rest: Seq<u8>)
    requires
        payload_of(p).len() < 0x1_0000_0000,
    ensures
        parse_spec(packet_bytes(p) + rest) == Ok::<(PacketModel, int), ShellV2Error>(
            (p, packet_bytes(p).len() as int),
        ),
{
    let d = payload_of(p);
    let n = low_u32(d.len() as int);
    assert(n == d.len());
    lemma_u32_round_trip(n);
    let buf = packet_bytes(p) + rest;
    assert(buf.subrange(1, 5) =~= le_bytes(n as nat, 4));
    assert(buf.subrange(5, 5 + d.len() as int) =~= d);
    match p {
        PacketModel::WindowSizeChange { rows, cols } => {
            lemma_u16_round_trip(rows);
            lemma_u16_round_trip(cols);
            assert(d.subrange(0, 2) =~= le_bytes(rows as nat, 2));
            assert(d.subrange(2, 4) =~= le_bytes(cols as nat, 2));
        },
        _ => {},
    }
}

fn push_frame(out: &mut Vec<u8>, id: u8, payload: &[u8])
    ensures
        final(out)@ == old(out)@ + frame(id, payload@),
{
    out.push(id);
    push_u32(out, truncate_len(payload.len()));
    push_bytes(out, payload);
    assert(out@ =~= old(out)@ + frame(id, payload@));
}

impl<'a> ShellV2Packet<'a> {
    /// Reads the packet at the front of a buffer, and counts its bytes.
    pub fn parse(buf: &'a [u8]) -> (r: Result<(ShellV2Packet<'a>, usize), ShellV2Error>)
        ensures
            match r {
                Ok((p, n)) => parse_spec(buf@) == Ok::<(PacketModel, int), ShellV2Error>(
                    (p@, n as int),
                ) && n <= buf@.len(),
                Err(e) => parse_spec(buf@) == Err::<(PacketModel, int), ShellV2Error>(e),
            },
    {
        if buf.len() < 5 {
            return Err(ShellV2Error::HeaderTooShort);
        }
        let id: u8 = buf[0];
        let len: u32 = read_u32(buf, 1);
        let total: u64 = 5 + len as u64;
        if (buf.len() as u64) < total {
            let expected: usize = if total <= usize::MAX as u64 {
                total as usize
            } else {
                usize::MAX
            };
            return Err(ShellV2Error::PayloadTooShort { expected, got: buf.len() });
        }
        let consumed: usize = total as usize;
        let payload = vstd::slice::slice_subrange(buf, 5, consumed);
        let pkt = if id == SHELL_ID_STDIN {
            ShellV2Packet::Stdin(payload)
        } else if id == SHELL_ID_STDOUT {
            ShellV2Packet::Stdout(payload)
        } else if id == SHELL_ID_STDERR {
            ShellV2Packet::Stderr(payload)
        } else if id == SHELL_ID_EXIT {
            let code: u8 = if payload.len() > 0 {
                payload[0]
            } else {
                0
            };
            ShellV2Packet::ExitCode(code)
        } else if id == SHELL_ID_CLOSE_STDIN {
            ShellV2Packet::CloseStdin
        } else if id == SHELL_ID_WINDOW_SIZE_CHANGE {
            let rows: u16 = if payload.len() >= 2 {
                read_u16(payload, 0)
            } else {
                0
            };
            let cols: u16 = if payload.len() >= 4 {
                read_u16(payload, 2)
            } else {
                0
            };
            ShellV2Packet::WindowSizeChange { rows, cols }
        } else {
            return Err(ShellV2Error::UnknownStreamId(id));
        };
        Ok((pkt, consumed))
    }

    /// Appends the bytes of the packet.
    pub fn encode(&self, out: &mut Vec<u8>)
        ensures
            final(out)@ == old(out)@ + packet_bytes(self@),
    {
        match self {
            ShellV2Packet::Stdin(data) => push_frame(out, SHELL_ID_STDIN, data),
            ShellV2Packet::Stdout(data) => push_frame(out, SHELL_ID_STDOUT, data),
            ShellV2Packet::Stderr(data) => push_frame(out, SHELL_ID_STDERR, data),
            ShellV2Packet::ExitCode(code) => {
                let mut payload: Vec<u8> = Vec::new();
                payload.push(*code);
                assert(payload@ =~= seq![*code]);
                push_frame(out, SHELL_ID_EXIT, payload.as_slice());
            },
            ShellV2Packet::CloseStdin => {
                let payload: Vec<u8> = Vec::new();
                assert(payload@ =~= seq![]);
                push_frame(out, SHELL_ID_CLOSE_STDIN, payload.as_slice());
            },
            ShellV2Packet::WindowSizeChange { rows, cols } => {
                let mut payload: Vec<u8> = Vec::new();
                push_u16(&mut payload, *rows);
                push_u16(&mut payload, *cols);
                assert(payload@ =~= le_bytes(*rows as nat, 2) + le_bytes(*cols as nat, 2));
                push_frame(out, SHELL_ID_WINDOW_SIZE_CHANGE, payload.as_slice());
            },
        }
    }
}

/// A packet is the number of its stream, the length of its payload and the payload. The streams
/// have these numbers, and what is behind a packet is not looked at.
pub proof fn packets_are_laid_out(buf: Seq<u8>)
    ensures
        match parse_spec(buf) {
            Ok((p, n)) => {
                &&& buf.len() >= n >= 5
                &&& n == 5 + word_at(buf, 1)
                &&& match p {
                    PacketModel::Stdin(d) => buf[0] == 0 && d == buf.subrange(5, n),
                    PacketModel::Stdout(d) => buf[0] == 1 && d == buf.subrange(5, n),
                    PacketModel::Stderr(d) => buf[0] == 2 && d == buf.subrange(5, n),
                    PacketModel::ExitCode(c) => buf[0] == 3 && c == if n > 5 {
                        buf[5]
                    } else {
                        0
                    },
                    PacketModel::CloseStdin => buf[0] == 4,
                    PacketModel::WindowSizeChange { rows, cols } => buf[0] == 5 && rows == (if n
                        >= 7 {
                        half_at(buf, 5)
                    } else {
                        0
                    }) && cols == if n >= 9 {
                        half_at(buf, 7)
                    } else {
                        0
                    },
                }
            },
            Err(_) => buf.len() < 5 || buf.len() < 5 + word_at(buf, 1) || buf[0] > 5,
        },
{
    if buf.len() >= 5 {
        numbers_are_little_endian(buf, 1);
        let n = 5 + word_at(buf, 1);
        if buf.len() >= n {
            let payload = buf.subrange(5, n as int);
            if n >= 7 {
                numbers_are_little_endian(buf, 5);
                assert(payload.subrange(0, 2) =~= buf.subrange(5, 7));
            }
            if n >= 9 {
                numbers_are_little_endian(buf, 7);
                assert(payload.subrange(2, 4) =~= buf.subrange(7, 9));
            }
        }
    }
}

} // verus!
