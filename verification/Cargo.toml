[package]
name = "moss"
version = "0.1.0"
edition = "2021"
publish = false

[dependencies]
glob = "0.3"
clap = { version = "4", features = ["derive"] }
clap_complete = "4"
colored = "2"
notify = "6"
thiserror = "1"
tokio = { version = "1", features = ["full"] }
