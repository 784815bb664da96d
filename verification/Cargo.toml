[package]
name = "rdest"
version = "0.1.0"
edition = "2021"
publish = false

[dependencies]
sha1 = "0.6"
rand = "0.7"
url = "2"
tokio = { version = "0.2", features = ["full"] }
reqwest = { version = "0.10", default-features = false }
structopt = "0.3"
termion = "1.5"
bytes = "0.5"
