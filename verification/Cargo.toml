[package]
name = "brightctl"
version = "0.1.0"
edition = "2021"
publish = false

[dependencies]
anstream = "=1.0.0"
anstyle = "=1.0.14"
clap = { version = "=4.6.7", features = ["derive"] }
clap_mangen = "=0.3.3"
colorchoice-clap = "=1.0.8"
log = "=0.4.34"
serde = { version = "=1.0.229", features = ["derive"] }
serde_json = "=1.0.154"
zbus = "5"
