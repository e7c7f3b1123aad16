[package]
name = "stegotext"
version = "0.1.0"
edition = "2021"
publish = false

[dependencies]
bitstream-io = "0.8"
clap = "2"
ngrams = "1"
rand = "0.7"
rpassword = "4"
sha2 = "0.8"
