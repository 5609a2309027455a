[package]
name = "icfp2018"
version = "0.1.0"
edition = "2021"
publish = false

[dependencies]
chrono = "0.4"
failure = "0.1"
log = "0.4"
loggerv = "0.7"
rayon = "1"
serde = { version = "1", features = ["derive"] }
serde_json = "1"
structopt = "0.3"
