[package]
name = "manim_rust"
version = "0.1.0"
edition = "2021"
publish = false

[dependencies]
image = { version = "=0.25.10", default-features = false, features = ["png", "jpeg", "gif", "webp"] }
mitex = "=0.2.4"
kurbo = "=0.13.1"
peniko = "=0.6.1"
clap = { version = "=4.6.7", features = ["derive"] }
i_overlay = "*"
usvg = { version = "*", default-features = false }
