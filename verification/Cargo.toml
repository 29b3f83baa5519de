[package]
name = "gfwlist_smartdns"
version = "0.1.0"
edition = "2021"
publish = false

[dependencies]
base64 = "0.21"
clap = { version = "4", features = ["derive"] }
publicsuffix = "1.5"
reqwest = "0.11"
tokio = { version = "1", features = ["macros", "rt-multi-thread"] }
