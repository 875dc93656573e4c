[package]
name = "bitorrentclient"
version = "0.1.0"
edition = "2021"
publish = false

[dependencies]
anyhow = "1"
bendy = "0.3"
sha1 = "0.10"
rand = "0.8"
clap = { version = "4.5", default-features = false, features = ["std", "derive", "help", "usage", "error-context"] }
reqwest = { version = "0.12", default-features = false, features = ["blocking", "rustls-tls"] }
