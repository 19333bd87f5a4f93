[package]
name = "img_to_pdf"
version = "0.1.0"
edition = "2021"
publish = false

[dependencies]
lopdf = { version = "*", features = ["embed_image"] }
anyhow = "1"
clap = { version = "4", features = ["derive"] }
kamadak-exif = "*"
image = { version = "*", default-features = false, features = ["jpeg", "png", "webp", "gif", "bmp", "tiff"] }
walkdir = "2"

[dev-dependencies]
base64 = "*"
