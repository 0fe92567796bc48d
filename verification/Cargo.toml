[package]
name = "content_tree"
version = "0.1.0"
edition = "2021"
publish = false

[dependencies]
hex = "=0.4.3"
sha2 = "=0.10.9"
rand = "=0.8.8"
serde = { version = "=1.0.229", features = ["derive"] }
serde_json = "=1.0.154"
anyhow = "=1.0.104"
console_error_panic_hook = "=0.1.7"
leptos = { version = "=0.6.15", features = ["csr"] }
leptos-use = "=0.13.13"
codee = "=0.2.0"
reqwasm = "=0.5.0"
