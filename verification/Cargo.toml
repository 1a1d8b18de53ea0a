[package]
name = "yolo_ort"
version = "0.1.0"
edition = "2021"
publish = false

[dependencies]
fast_image_resize = "=5.5.0"
image = { version = "=0.25.10", default-features = false }
ndarray = "=0.17.2"
ort = { version = "=2.0.0-rc.15", default-features = false, features = ["std", "ndarray", "load-dynamic", "cuda", "tensorrt"] }
thiserror = "=2.0.21"
