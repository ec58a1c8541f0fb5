[package]
name = "result_pages"
version = "0.1.0"
edition = "2021"
publish = false

[dependencies]
contrast = "0.1"
css-colors = "1.0"
csv = "1.1"
image = "0.23"
lazy_static = "1.4"
resvg = "0.11"
rgb = "0.8"
serde = { version = "1.0", features = ["derive"] }
tera = "1"
time = "0.2"
usvg = "0.11"
