[package]
name = "sitegen"
version = "0.1.0"
edition = "2021"
publish = false

[dependencies]
sha2 = "=0.10.9"
base16 = "=0.2.1"
md5 = "=0.7.0"
rand = "=0.8.8"
rand_chacha = "=0.3.1"
csscolorparser = "=0.9.0"
htmlentity = "=1.3.2"
html-escape = "*"
mime_guess = "=2.0.5"
comrak = "*"
vfs = "=0.12.2"
tokio = { version = "*", features = ["rt", "process", "io-util", "macros", "sync", "fs", "time"] }
futures = "*"
clap = { version = "*", features = ["derive"] }
serde = { version = "*", features = ["derive"] }
serde_yaml = "=0.9.34"
toml = "=0.8.23"
anyhow = "*"
chrono = { version = "*", features = ["serde"] }
