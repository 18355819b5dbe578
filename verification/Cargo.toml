[package]
name = "pkmndraft"
version = "0.1.0"
edition = "2021"
publish = false

[dependencies]
rand = "=0.10.3"
tokio = { version = "=1.53.2", features = ["sync", "rt-multi-thread", "macros"] }
warp = { version = "=0.3.7", features = ["tls"] }
handlebars = "=6.4.4"
html2text = "=0.17.1"
log = "=0.4.34"
simple_logger = "=5.2.0"
serde = "=1.0.229"
serde_derive = "=1.0.229"
serde_json = "=1.0.151"
chrono = "=0.4.45"
timer = "=0.2.0"
