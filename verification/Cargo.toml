[package]
name = "rust_iron"
version = "0.1.0"
edition = "2021"
publish = false

[dependencies]
rand = "0.7"
primal = "0.3"
clap = "2"
crossbeam = "0.8"
dotenv = "0.15"
iron = "0.6"
mime = "0.2"
params = "0.8"
