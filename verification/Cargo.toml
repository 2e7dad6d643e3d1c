[package]
name = "ec_core"
version = "2.0.0"
edition = "2021"
publish = false

[dependencies]
anstream = "=0.6.21"
anstyle = "=1.0.14"
chrono = "=0.4.45"
clap = { version = "=4.6.7", features = ["derive"] }
foreign-types = "=0.3.2"
hex = "=0.4.3"
hickory-proto = { version = "=0.25.2", default-features = false, features = ["std"] }
openssl = "=0.10.82"
openssl-sys = "=0.9.118"
quick-xml = "=0.38.4"
serde = { version = "=1.0.229", features = ["derive"] }
serde_json = "=1.0.154"
smoltcp = "=0.12.0"
socket2 = { version = "=0.6.5", features = ["all"] }
