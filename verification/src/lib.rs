//! Wire formats, state machines and decision logic of the Android debug bridge and
//! fastboot protocols, with a parser for AIDL interface files.

pub mod adb_utils;
pub mod aidl;
pub mod android_info;
pub mod auth;
pub mod base64_text;
pub mod bridge;
pub mod bytes;
pub mod client;
pub mod compress;
pub mod constants;
pub mod fastboot;
pub mod fastboot_flow;
pub mod features;
pub mod header;
pub mod host_service;
pub mod hostwire;
pub mod key_files;
pub mod keys;
pub mod pairing;
pub mod pubkey;
pub mod registry;
pub mod server_transport;
pub mod session;
pub mod shell_v2;
pub mod stls;
pub mod sync;
pub mod sync_stream;
pub mod text;
pub mod tls;
pub mod transport;
pub mod update;
pub mod usb;
pub mod usb_android;
