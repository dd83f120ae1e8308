[package]
name = "ecosim"
version = "0.1.0"
edition = "2021"
publish = false

[dependencies]
rand = "0.8"
rand_distr = "0.4"
serde = { version = "1", features = ["derive"] }
serde_json = "1"
structopt = "0.3"
noise = "0.7"
rayon = "1"
