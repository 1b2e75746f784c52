[package]
name = "md-view"
version = "0.1.0"
edition = "2021"
publish = false

[dependencies]
comrak = { version = "*", default-features = false }
syntect = { version = "*", default-features = false, features = ["default-fancy"] }
notify-debouncer-mini = "*"
