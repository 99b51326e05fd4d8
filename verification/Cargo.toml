[package]
name = "lost_cities"
version = "0.1.0"
edition = "2021"
publish = false

[dependencies]
rand = "0.5"
serde = "1"
serde_derive = "1"
bincode = "1"
chrono = "0.4"
clap = "2"
