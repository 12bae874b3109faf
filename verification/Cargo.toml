[package]
name = "rust_os"
version = "0.1.0"
edition = "2021"
publish = false

[dependencies]
spin = "=0.12.3"
x86_64 = { version = "=0.15.5", default-features = false, features = ["instructions"] }
volatile = "=0.4.6"
pic8259 = "=0.11.0"
pc-keyboard = "=0.9.0"
lazy_static = "=1.5.1"
