[package]
name = "eva"
version = "0.1.0"
edition = "2021"
publish = false

[dependencies]
itertools = "0.10"
take_mut = "0.2"
chrono = "0.4"
clap = "3.2"
config = "0.13"
directories = "4"
shellexpand = "2"
futures-executor = "0.3"
async-trait = "0.1"
thiserror = "1"
anyhow = "1"
failure = "0.1"
derive-new = "0.5"
diesel = { version = "1.4", features = ["sqlite", "r2d2"] }
