[package]
name = "asciigen"
version = "0.1.0"
edition = "2021"
publish = false

[dependencies]
image = { version = "0.25", default-features = false, features = ["png", "jpeg"] }
rand = "0.8"
rayon = "1"
rusttype = "0.9"
fast_image_resize = "5"
clap = { version = "4", features = ["derive"] }
ncurses = "*"
