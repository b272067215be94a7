[package]
name = "git_odb"
version = "0.1.0"
edition = "2021"
publish = false

[dependencies]
flate2 = "*"
sha1_smol = "*"
futures-io = "*"
async-std = "*"
