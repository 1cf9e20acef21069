[package]
name = "camos"
version = "0.1.0"
edition = "2021"
publish = false

[dependencies]
elf = "*"
thiserror = { version = "2", default-features = false }
uart_16550 = "0.3"
uefi = "0.35"
x86_64 = { version = "0.15", default-features = false, features = ["instructions"] }
