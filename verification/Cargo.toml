[package]
name = "isaac_unlocker"
version = "0.1.0"
edition = "2021"
publish = false

[dependencies]
find_all = "=2.0.0"
image = { version = "=0.25.10", default-features = false, features = ["bmp", "dds", "exr", "ff", "gif", "hdr", "ico", "jpeg", "png", "pnm", "qoi", "tga", "tiff", "webp"] }
rust-ini = "=0.21.3"
dirs-next = "=2.0.0"
include_dir = "=0.7.4"
lazy_static = "=1.5.1"
winapi = { version = "=0.3.9", features = ["winuser"] }
