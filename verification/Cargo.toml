[package]
name = "wasd"
version = "0.1.0"
edition = "2021"
publish = false

[dependencies]
axum = { version = "0.8", features = ["ws"] }
dirs = "*"
libc = "0.2"
serde = { version = "1", features = ["derive"] }
tokio = { version = "1", features = ["full"] }
toml = "*"
turbojpeg = "1"
x11rb = { version = "0.13", features = ["shm", "xfixes"] }
