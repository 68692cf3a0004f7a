[package]
name = "notes_inspector"
version = "0.1.0"
edition = "2021"
publish = false

[dependencies]
flate2 = "1"
unicode-width = "0.2"
unicode-segmentation = "1"
rusqlite = { version = "0.32", features = ["bundled"] }
dirs = "5"
walkdir = "2"
filetime = "0.2"
ratatui = "0.29"
crossterm = "0.28"
pulldown-cmark = "0.12"
image = { version = "0.25", default-features = false, features = ["png", "jpeg", "gif", "bmp", "webp", "tiff"] }
fast_image_resize = { version = "5", features = ["image"] }
