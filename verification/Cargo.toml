[package]
name = "zeta"
version = "0.1.0"
edition = "2021"
publish = false

[dependencies]
color-eyre = { version = "0.6", default-features = false }
crossterm = "0.29"
directories = "6"
futures = "0.3"
ratatui = "=0.30.2"
ratatui-textarea = "=0.9.4"
reqwest = { version = "0.13", default-features = false, features = ["json"] }
rig-core = { version = "=0.38.2", features = ["derive"] }
serde = { version = "1", features = ["derive"] }
serde_json = "1"
thiserror = "2"
tokio = { version = "1", features = ["rt-multi-thread", "macros", "sync", "io-std", "io-util", "process", "fs"] }
tui-markdown = { version = "=0.3.13", default-features = false }
uuid = { version = "=1.29.0", features = ["v7"] }
