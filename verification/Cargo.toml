[package]
name = "demovoice"
version = "0.1.0"
edition = "2021"
publish = false

[dependencies]
bitbuffer = "*"
clap = { version = "*", features = ["derive"] }
crc = "1"
glob = "*"
hound = "*"
opus = "*"
serde_json = "*"
tf-demo-parser = "*"
