[package]
name = "gaia"
version = "0.1.0"
edition = "2021"
publish = false

[dependencies]
aead = { version = "=0.5.2", features = ["alloc", "getrandom", "stream"] }
aes-gcm-siv = "=0.11.1"
base64 = "=0.22.1"
crypto-common = "=0.1.7"
rand_core = { version = "=0.6.4", features = ["getrandom"] }
clap = { version = "=4.6.7", features = ["derive"] }
main_error = "=0.1.2"
tokio = { version = "=1.53.2", features = ["rt-multi-thread", "macros", "io-util", "io-std", "fs"] }
