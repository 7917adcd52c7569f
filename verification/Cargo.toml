[package]
name = "ypir"
version = "0.2.1"
edition = "2021"
publish = false

[dependencies]
valar-spiral-rs = "=0.5.3-rc.1"
rand = "0.8"
rand_chacha = "0.3"
sha1 = "0.10"
serde = { version = "1", features = ["derive"] }
serde_json = "1"
clap = { version = "4", features = ["derive"] }
fastrand = "2"
log = "0.4"
rayon = "1"
