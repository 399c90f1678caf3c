[package]
name = "quantam_fs"
version = "0.1.0"
edition = "2021"
publish = false

[dependencies]
aes-gcm = "*"
clap = { version = "4", features = ["derive"] }
ml-dsa = "*"
rand = "*"
sha2 = "*"
tokio = { version = "1", features = ["full"] }
zeroize = "1"
