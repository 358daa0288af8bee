[package]
name = "xml_structer"
version = "0.1.0"
edition = "2021"
publish = false

[dependencies]
anyhow = "1"
clap = { version = "4", features = ["derive"] }
colored = "*"
config = { version = "*", default-features = false, features = ["toml"] }
console = "*"
console_error_panic_hook = "*"
indicatif = "*"
is-terminal = "*"
jwalk = "*"
rayon = "1"
roxmltree = "*"
serde = { version = "1", features = ["derive"] }
serde_json = "1"
tracing = "*"
tracing-subscriber = { version = "*", features = ["env-filter"] }
wasm-bindgen = "*"
