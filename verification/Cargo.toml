[package]
name = "zee-edit"
version = "0.1.0"
edition = "2021"
publish = false

[dependencies]
ropey = "1.6"
unicode-segmentation = "1"
unicode-width = "0.2"
smallvec = "1"
euclid = "0.22"
parking_lot = "0.12"
log = "0.4"
git2 = { version = "0.14", default-features = false }
