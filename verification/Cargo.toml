[package]
name = "extraction_gym"
version = "0.1.0"
edition = "2021"
publish = false

[dependencies]
rustc-hash = "*"
egraph-serialize = "*"
indexmap = "2"
ordered-float = "*"
anyhow = "1"
env_logger = "*"
log = "0.4"
pico-args = "*"
rand = "0.8"
itertools = "*"
rpds = "*"
arrayvec = "0.7"
parking_lot = "0.12"
rayon = "1"
coin_cbc = "*"
clingo = "*"
good_lp = { version = "*", default-features = false }
