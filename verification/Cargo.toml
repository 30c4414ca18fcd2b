[package]
name = "switrs_courier"
version = "0.1.0"
edition = "2021"
publish = false

[dependencies]
clap = { version = "4", features = ["derive", "env"] }
gcp_auth = "0.10"
google-gmail1 = "5"
mailparse = "0.14"
oauth2 = "4"
regex = "1"
reqwest = "0.11"
thiserror = "1"
time = "0.3"
tokio = { version = "1", features = ["full"] }
url = "2"
