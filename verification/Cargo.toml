[package]
name = "crowdchess"
version = "0.1.0"
edition = "2021"
publish = false

[dependencies]
slab = "0.4"
rand = "0.8"
mio = { version = "1", features = ["os-poll", "net"] }
tungstenite = "0.24"
url = "2"
toml = "0.8"
serde = { version = "1", features = ["derive"] }
serde_json = "1"
