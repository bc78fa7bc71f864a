[package]
name = "wikit"
version = "0.3.0"
edition = "2021"
publish = false

[dependencies]
anyhow = "=1.0.104"
chrono = "=0.4.45"
clap = "=2.34.0"
dirs = "=7.0.0"
encoding_rs = "=0.8.42"
fst = { version = "=0.4.7", features = ["levenshtein"] }
json5 = "*"
minilzo-rs = "=0.6.1"
miniz_oxide = "=0.9.1"
regex = "=1.13.1"
ripemd128 = "=0.1.2"
serde = { version = "=1.0.229", features = ["derive"] }
toml = "=0.5.11"
url = "=2.5.8"

[dev-dependencies]
adler = "=1.0.2"
