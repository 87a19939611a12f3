[package]
name = "lexicc"
version = "0.1.0"
edition = "2021"
publish = false

[dependencies]
aws-config = "*"
aws-sdk-polly = "*"
dirs = "*"
rodio = "*"
sysinfo = "*"
tokio = { version = "*", features = ["macros", "rt-multi-thread", "fs", "io-util"] }
