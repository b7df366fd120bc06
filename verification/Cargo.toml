[package]
name = "sysprogs"
version = "0.1.0"
edition = "2021"
publish = false

[dependencies]
pc-keyboard = "*"
pluggable_interrupt_os = "*"
spin = "*"
lazy_static = "*"
crossbeam = "*"
nix = "0.20"
openssl = "*"
