[package]
name = "elytra_sim"
version = "0.1.0"
edition = "2021"
publish = false

[dependencies]
ahash = { version = "=0.8.12", default-features = false, features = ["std", "no-rng"] }
eframe = { version = "=0.37.0", default-features = false, features = ["default_fonts", "glow", "x11"] }
egui = "=0.37.0"
itertools = "=0.14.0"
rand = "=0.10.3"
rand_distr = "=0.6.0"
rayon = "=1.12.0"
