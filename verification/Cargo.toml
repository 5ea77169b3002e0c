[package]
name = "ps5_emulator"
version = "0.1.0"
edition = "2021"
publish = false

[dependencies]
rayon = "1"
parking_lot = "0.12"
log = "0.4"
egui = { version = "0.24", default-features = false }
rodio = { version = "0.17", default-features = false, features = ["wav"] }
jni = "0.21"
