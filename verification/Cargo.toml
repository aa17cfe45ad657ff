[package]
name = "pack_index"
version = "0.1.0"
edition = "2021"
publish = false

[dependencies]
git-features = { version = "*", default-features = false, features = ["rustsha1"] }
sha1_smol = "*"
