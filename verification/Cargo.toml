[package]
name = "static_gallery"
version = "0.1.0"
edition = "2021"
publish = false

[dependencies]
image = "0.24"
kamadak-exif = "0.5"
lazy_static = "1"
num_cpus = "1"
serde = { version = "1", features = ["derive"] }
serde_json = "1"
structopt = "0.3"
threadpool = "1"
zip = { version = "0.6", default-features = false, features = ["deflate"] }
