[package]
name = "thread_lens"
version = "0.1.0"
edition = "2021"
publish = false

[dependencies]
chrono = { version = "*", features = ["serde"] }
clap = { version = "*", features = ["derive"] }
console_error_panic_hook = "*"
env_logger = "*"
serde = { version = "*", features = ["derive"] }
serde_json = "*"
serde_yaml = "*"
wasm-bindgen = "*"
