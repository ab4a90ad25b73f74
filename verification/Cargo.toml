[package]
name = "znet_core"
version = "0.1.0"
edition = "2021"
publish = false

[dependencies]
anyhow = "=1.0.104"
arboard = { version = "=3.7.0", default-features = false, features = ["image-data"] }
clap = { version = "=4.6.7", features = ["derive"] }
dirs = "=6.0.0"
egui = { version = "=0.29.1", default-features = false, features = ["default_fonts"] }
image = { version = "=0.25.10", default-features = false, features = ["png"] }
jni = "=0.21.1"
qrcode = { version = "=0.14.1", default-features = false }
rcgen = "=0.13.2"
rustls = { version = "=0.23.46", default-features = false, features = ["ring", "std", "tls12", "logging"] }
rustls-pemfile = "=2.2.0"
sha2 = "=0.10.9"
socket2 = "=0.5.10"
tiny_http = { version = "=0.12.0", features = ["ssl-rustls"] }
