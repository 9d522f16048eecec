[package]
name = "spritore"
version = "0.1.0"
edition = "2021"
publish = false

[dependencies]
miniz_oxide = "0.8"
zopfli = "0.8"
resvg = "*"
clap = { version = "4", features = ["derive"] }
thiserror = "2"

[dev-dependencies]
png = "0.17"
