[package]
name = "wayland-backend"
version = "0.1.0"
edition = "2021"
publish = false

[dependencies]
smallvec = "1"
io-lifetimes = "1"
log = "0.4"
nix = { version = "0.26", default-features = false, features = ["socket", "uio"] }
