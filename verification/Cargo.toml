[package]
name = "pwdchk"
version = "0.1.0"
edition = "2021"
publish = false

[dependencies]
sha1 = "0.10"
ipnet = "2"
clap = { version = "4", features = ["derive"] }
tokio = { version = "1", features = ["full"] }
futures = "0.3"
rayon = "1"
reqwest = { version = "0.11", default-features = false, features = ["blocking", "rustls-tls"] }
