[package]
name = "disk_utils"
version = "0.1.0"
edition = "2021"

[dependencies]
byteorder = "1"
crc = "1"
