# adb_fastboot

The Android Debug Bridge and Fastboot protocols, and a parser for Android interface files, as a
library whose behaviour is stated in contracts and proved with Verus.

## Layout

- `src/` is the library. Every function of it is verified, except the small ones that call other
  crates or the standard library and whose contracts are taken on trust.
  - `constants`, `header`, `transport`: message headers, and connections that carry messages.
  - `keys`, `pubkey`, `base64_text`, `auth`, `key_files`: RSA keys, their Android encoding, and the
    answers to a device that asks who is there.
  - `stls`, `tls`, `pairing`: the upgrade to TLS, certificates, and pairing.
  - `features`, `session`, `shell_v2`, `sync`, `sync_stream`, `compress`, `adb_utils`: what a client
    says to a device.
  - `client`, `server_transport`, `hostwire`: what a client says to the server.
  - `registry`, `host_service`, `bridge`: what the server decides.
  - `usb`, `usb_android`: interfaces, descriptors and transfers.
  - `fastboot`, `fastboot_flow`, `android_info`, `update`: bootloaders.
  - `aidl`: tokens, grammar and syntax trees of interface files.
  - `text`, `bytes`: numbers, strings and byte orders.
- `app/` is ordinary Rust around it: sockets, files, USB, TLS streams and the command lines of
  `adb-rs`, `fastboot-rs` and `aidl-rs`.
- `tests/` runs the library on concrete values.

## Contracts

A connection is modelled by what was written to it, how much of that may still be held back, what
can still be read from it, how often it failed, and how it failed last. A function that talks to a
device states which bytes it writes and what it returns for the bytes that it reads. Where the
connection fails it states what success still means, and which kind of failure is told.

What the library has from other crates (compression, RSA, AES-GCM, HKDF, Base64, certificates, byte
orders) is called through small functions whose contracts are taken on trust. Each says in its doc
comment what is claimed of the function that it calls.

Facts that hold across functions, such as that a message which was sent is received unchanged, are
public proof functions.
