[package]
name = "biglog_sort"
version = "0.1.0"
edition = "2021"
publish = false

[dependencies]
byteorder = "=1.5.0"
crc = "=1.8.1"
jemallocator = "0.5"
log = "=0.4.34"
png = "=0.15.3"
regex = "=1.13.1"
