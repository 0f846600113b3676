[package]
name = "adb_fastboot"
version = "0.1.0"
edition = "2021"
publish = false

[dependencies]
base64 = "0.22"
brotli = "7"
byteorder = "1"
clap = { version = "4", features = ["derive"] }
inotify = { version = "0.11", default-features = false }
libc = "0.2"
lz4_flex = "0.11"
rcgen = { version = "0.13", default-features = false, features = ["crypto", "pem", "ring"] }
ring = "0.17"
rsa = "0.9"
rusb = "0.9"
rustls = { version = "0.23", default-features = false, features = ["ring", "std", "tls12"] }
sha1 = { version = "0.10", features = ["oid"] }
thiserror = "1"
zip = { version = "2", default-features = false, features = ["deflate"] }
zstd = "0.13"
