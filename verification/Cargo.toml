[package]
name = "meetings"
version = "0.1.0"
edition = "2021"
publish = false

[dependencies]
chrono = "=0.4.45"
directories = "=6.0.0"
serde_json = "1"
structopt = "=0.3.26"
