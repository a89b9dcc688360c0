[package]
name = "data_panel"
version = "0.1.0"
edition = "2021"
publish = false

[dependencies]
simple-string-patterns = "=0.4.0"
macroquad = "=0.4.16"
arboard = { version = "=3.7.0", default-features = false }
