[package]
name = "htree"
version = "0.1.0"
edition = "2021"
publish = false

[dependencies]
line_drawing = "*"
rayon = "*"
gif = "*"
