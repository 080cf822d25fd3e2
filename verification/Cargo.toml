[package]
name = "r7z"
version = "0.1.0"
edition = "2021"
publish = false

[dependencies]
aes = "=0.9.4"
bzip2 = "*"
cbc = "=0.2.1"
chrono = "=0.4.45"
crc32fast = "=1.5.4"
deflate64 = "*"
getrandom = "=0.4.3"
lzma-rust2 = "=0.25.0"
memmap2 = "=0.9.12"
miniz_oxide = "*"
ppmd-rust = "=1.5.2"
sha2 = "=0.11.1"
