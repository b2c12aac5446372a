[package]
name = "pact_plugin_driver"
version = "0.1.0"
edition = "2021"
publish = false

[dependencies]
anyhow = "=1.0.104"
home = "=0.5.12"
log = "=0.4.34"
os_info = "=3.15.0"
pact_models = "=1.3.15"
regex = "=1.13.1"
serde = { version = "=1.0.229", features = ["derive"] }
serde_json = "=1.0.151"
sysinfo = "=0.39.6"
tokio = { version = "=1.53.2", features = ["process", "rt-multi-thread", "macros", "io-util", "time"] }
