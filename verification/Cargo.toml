[package]
name = "ggst_clipper"
version = "0.1.0"
edition = "2021"
publish = false

[dependencies]
image = { version = "0.25", default-features = false, features = ["png", "jpeg"] }
clap = { version = "4", features = ["derive"] }
directories = "5"
indicatif = "0.17"
rust-ini = "0.21"
strsim = "0.11"
rfd = { version = "0.15", default-features = false, features = ["gtk3"] }
ort = { version = "2.0.0-rc.10", default-features = false }
