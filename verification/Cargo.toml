[package]
name = "turboquant"
version = "0.1.0"
edition = "2021"
publish = false

[dependencies]
bincode = "1"
glob = "0.3"
ndarray = "0.16"
ort = { version = "2.0.0-rc.10", default-features = false, features = ["load-dynamic", "std"] }
rand = "0.8"
rand_chacha = "0.3"
rand_distr = "0.4"
rmcp = { version = "*", features = ["server", "transport-io", "macros"] }
schemars = "1"
serde = { version = "1", features = ["derive"] }
serde_json = "1"
sha2 = "0.10"
tempfile = "3"
thiserror = "2"
tokenizers = { version = "0.21", default-features = false, features = ["fancy-regex"] }
tokio = { version = "1", features = ["macros", "rt-multi-thread", "sync"] }
tracing = "0.1"
tracing-subscriber = { version = "0.3", features = ["env-filter"] }
