[package]
name = "mycelium"
version = "0.1.0"
edition = "2021"
publish = false

[dependencies]
ip_network_table-deps-treebitmap = "0.5"
urlencoding = "2"
left-right = "0.11"
log = "0.4"
tracing = "0.1"
tokio = { version = "1", features = ["rt", "rt-multi-thread", "sync", "time"] }
reqwest = { version = "0.12", default-features = false, features = ["json"] }
prettytable-rs = { version = "0.10", default-features = false }
serde = { version = "1", features = ["derive"] }
