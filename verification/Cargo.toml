[package]
name = "ringtones"
version = "0.1.0"
edition = "2021"
publish = false

[dependencies]
clap = { version = "=4.6.7", features = ["derive"] }
glob = "=0.3.4"
lofty = "=0.18.2"
plist = "=1.10.3"
serde = { version = "=1.0.229", features = ["derive"] }
serde_derive = "=1.0.229"
sha256 = { version = "=1.6.0", default-features = false }
