[package]
name = "keylight"
version = "0.1.0"
edition = "2021"
publish = false

[dependencies]
elgato-keylight = "=0.5.0"
structopt = "=0.3.26"
tokio = { version = "=1.54.1", features = ["macros", "rt-multi-thread"] }
zeroconf = "=0.10.5"
