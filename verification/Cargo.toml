[package]
name = "imagesorter"
version = "0.1.0"
edition = "2021"
publish = false

[dependencies]
image = "0.23"
img_hash = "3"
sha2 = "0.10"
hex = "0.4"
rayon = "1"
walkdir = "2"
kamadak-exif = "0.5"
chrono = "0.4"
trash = "3"
open = "5"
