[package]
name = "bson_repair"
version = "0.1.0"
edition = "2021"
publish = false

[dependencies]
bson = "2"
clap = { version = "4", features = ["derive"] }
color-eyre = "0.6"
dialoguer = "0.11"
futures = "0.3"
mongodb = "3"
pretty_assertions = "1"
tokio = { version = "1", features = ["macros", "rt-multi-thread"] }
