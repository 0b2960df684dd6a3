[package]
name = "bitcask_rs"
version = "0.1.0"
edition = "2021"
publish = false

[dependencies]
crc32fast = "1"
crossbeam-skiplist = "0.1"
jammdb = "*"
fs2 = "0.4"
