[package]
name = "photo_cull"
version = "0.1.0"
edition = "2021"
publish = false

[dependencies]
base64 = "=0.22.1"
chrono = "=0.4.45"
image = { version = "=0.25.10", default-features = false, features = ["bmp", "jpeg", "png", "tiff", "webp"] }
image_hasher = { version = "=3.1.1", default-features = false }
imagepipe = "=0.5.1"
imageproc = { version = "0.27", default-features = false }
kamadak-exif = "=0.6.1"
ndarray = "=0.17.2"
ort = { version = "=2.0.0-rc.15", default-features = false, features = ["std", "ndarray", "load-dynamic"] }
serde = { version = "=1.0.229", features = ["derive"] }
