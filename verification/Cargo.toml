[package]
name = "pbf_geo"
version = "0.1.0"
edition = "2021"
publish = false

[dependencies]
osmpbfreader = "*"
rstar = "*"
serde = { version = "*", features = ["derive"] }
clap = { version = "*", features = ["derive", "env"] }
tokio = { version = "*", features = ["macros", "rt-multi-thread"] }
poem = "*"
tracing-subscriber = "*"
