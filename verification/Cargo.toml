[package]
name = "carcossonne_uct"
version = "0.1.0"
edition = "2021"
publish = false

[dependencies]
indexmap = "*"
rand = "*"
rapidhash = "*"
heapless = "*"
serde = { version = "*", features = ["derive"] }
serde_json = "*"
toml = "*"
postcard = { version = "*", features = ["alloc"] }
thiserror = "*"
strum = { version = "*", features = ["derive"] }
itertools = "*"
tinyvec = { version = "*", features = ["alloc"] }
wasm-bindgen = "*"
