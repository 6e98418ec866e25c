[package]
name = "zusi_schlechtes_wetter"
version = "0.1.0"
edition = "2021"
publish = false

[dependencies]
anyhow = "1"
chrono = { version = "0.4", default-features = false, features = ["std"] }
clap = { version = "4", features = ["derive"] }
fs_extra = "1"
rand = "0.8"
rand_distr = "0.4"
xmltree = "0.10"
