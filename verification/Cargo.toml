[package]
name = "rust_macro"
version = "0.1.0"
edition = "2021"
publish = false

[dependencies]
rustc-hash = "*"
im-rc = "*"
bitvec = "*"
