[package]
name = "ext_protocol"
version = "0.1.0"
edition = "2021"
publish = false

[dependencies]
http = "1"
log = "0.4"
percent-encoding = "2.3"
sha2 = "0.10"
