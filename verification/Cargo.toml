[package]
name = "rdwarfs"
version = "0.1.0"
edition = "2021"
publish = false

[dependencies]
brotli = "=8.0.4"
clap = { version = "=4.6.7", features = ["derive"] }
fuser = { version = "=0.18.0", default-features = false }
libc = "=0.2.191"
liblzma = { version = "0.4", default-features = false, features = ["static"] }
lz4_flex = "=0.11.6"
memmap2 = "=0.9.12"
rayon = "=1.12.0"
sha2 = "=0.10.9"
tar = "=0.4.46"
thiserror = "=2.0.21"
xxhash-rust = { version = "=0.8.19", features = ["xxh3"] }
zstd = "=0.13.4"
