[package]
name = "ch_matrix"
version = "0.1.0"
edition = "2021"
publish = false

[dependencies]
priority-queue = "*"
superslice = "*"
itertools = "*"
byteorder = "*"
serde = { version = "*", features = ["derive"] }
serde_json = "*"
tar = "*"
rayon = "*"
