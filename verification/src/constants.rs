//! Numbers of the wire protocols. Identifiers are four ASCII letters read as a
//! little-endian number.

use vstd::prelude::*;

verus! {

/// "SYNC"
pub const A_SYNC: u32 = 0x434E5953;

/// "CNXN"
pub const A_CNXN: u32 = 0x4E584E43;

/// "OPEN"
pub const A_OPEN: u32 = 0x4E45504F;

/// "OKAY"
pub const A_OKAY: u32 = 0x59414B4F;

/// "CLSE"
pub const A_CLSE: u32 = 0x45534C43;

/// "WRTE"
pub const A_WRTE: u32 = 0x45545257;

/// "AUTH"
pub const A_AUTH: u32 = 0x48545541;

/// "STLS"
pub const A_STLS: u32 = 0x534C5453;

/// The protocol version that is announced.
pub const ADB_VERSION: u32 = 0x01000001;

/// The largest payload of the first protocol version.
pub const MAX_PAYLOAD_V1: u32 = 4096;

/// The largest payload of the second protocol version.
pub const MAX_PAYLOAD_V2: u32 = 1024 * 1024;

/// The version of the TLS upgrade.
pub const A_STLS_VERSION: u32 = 0x01000000;

/// The lowest version of the TLS upgrade that is accepted.
pub const A_STLS_VERSION_MIN: u32 = 0x01000000;

/// AUTH: a token to sign.
pub const A_AUTH_TOKEN: u32 = 1;

/// AUTH: a signature.
pub const A_AUTH_SIGNATURE: u32 = 2;

/// AUTH: a public key.
pub const A_AUTH_RSAKEY: u32 = 3;

/// "STAT"
pub const SYNC_STAT: u32 = 0x54415453;

/// "LIST"
pub const SYNC_LIST: u32 = 0x5453494C;

/// "SEND"
pub const SYNC_SEND: u32 = 0x444E4553;

/// "RECV"
pub const SYNC_RECV: u32 = 0x56434552;

/// "DENT"
pub const SYNC_DENT: u32 = 0x544E4544;

/// "DONE"
pub const SYNC_DONE: u32 = 0x454E4F44;

/// "DATA"
pub const SYNC_DATA: u32 = 0x41544144;

/// "FAIL"
pub const SYNC_FAIL: u32 = 0x4C494146;

/// "OKAY"
pub const SYNC_OKAY: u32 = 0x59414B4F;

/// "STA2"
pub const SYNC_STA2: u32 = 0x32415453;

/// "LST2"
pub const SYNC_LST2: u32 = 0x3254534C;

/// "DNT2"
pub const SYNC_DENT_V2: u32 = 0x32544E44;

/// The second version of STAT.
pub const SYNC_STAT_V2: u32 = SYNC_STA2;

/// The second version of LSTAT.
pub const SYNC_LSTAT_V2: u32 = SYNC_LST2;

/// "SND2"
pub const SYNC_SEND_V2: u32 = 0x32444E53;

/// "RCV2"
pub const SYNC_RECV_V2: u32 = 0x32564352;

/// "QUIT"
pub const SYNC_QUIT: u32 = 0x54495551;

/// No compression.
pub const SYNC_FLAG_NONE: u32 = 0;

/// Brotli compression.
pub const SYNC_FLAG_BROTLI: u32 = 1;

/// LZ4 compression.
pub const SYNC_FLAG_LZ4: u32 = 2;

/// Zstandard compression.
pub const SYNC_FLAG_ZSTD: u32 = 4;

/// Nothing is written.
pub const SYNC_FLAG_DRY_RUN: u32 = 0x8000_0000;

/// The largest data block.
pub const SYNC_DATA_MAX: usize = 64 * 1024;

/// Shell stream: standard input.
pub const SHELL_ID_STDIN: u8 = 0;

/// Shell stream: standard output.
pub const SHELL_ID_STDOUT: u8 = 1;

/// Shell stream: standard error.
pub const SHELL_ID_STDERR: u8 = 2;

/// Shell stream: the exit code.
pub const SHELL_ID_EXIT: u8 = 3;

/// Shell stream: standard input is closed.
pub const SHELL_ID_CLOSE_STDIN: u8 = 4;

/// Shell stream: the window has another size.
pub const SHELL_ID_WINDOW_SIZE_CHANGE: u8 = 5;

} // verus!
