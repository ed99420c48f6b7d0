[package]
name = "hash_visualiser"
version = "0.1.0"
edition = "2021"
publish = false

[dependencies]
pulldown-cmark = { version = "*", default-features = false, features = ["html"] }
svg-dom = "*"
wasm-bindgen = "*"
web-sys = { version = "*", features = ["Window", "Document", "Element"] }
actix-web = "*"
actix-files = "*"
futures-util = "*"
notify = "*"
serde = { version = "*", features = ["derive"] }
serde_json = "*"
tokio = { version = "*", features = ["sync", "macros", "rt-multi-thread"] }
tokio-stream = { version = "*", features = ["sync"] }
