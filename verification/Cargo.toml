[package]
name = "crusts"
version = "0.1.0"
edition = "2021"
publish = false

[dependencies]
cargo_metadata = "*"
clap = { version = "4", features = ["derive"] }
dirs = "*"
fern = { version = "*", features = ["colored"] }
flate2 = "1"
fs_extra = "1"
jwalk = "*"
log = "0.4"
reqwest = { version = "*", default-features = false, features = ["blocking"] }
serde = { version = "1", features = ["derive"] }
serde_json = "1"
tar = "0.4"
