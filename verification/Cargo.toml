[package]
name = "pow16_search"
version = "0.1.0"
edition = "2021"
publish = false

[dependencies]
num-bigint = "0.4"
num-traits = "0.2"
ctrlc = { version = "3", features = ["termination"] }
