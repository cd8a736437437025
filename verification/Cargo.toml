[package]
name = "hid_remap"
version = "0.1.0"
edition = "2021"
publish = false

[dependencies]
clap = "2.34"
libxdo = "0.6"
log = "0.4"
log4rs = "1"
serde = "1"
serde_derive = "1"
serde_yaml = "0.8"
