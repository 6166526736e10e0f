[package]
name = "xteink_x4"
version = "0.1.0"
edition = "2021"
publish = false

[dependencies]
heapless = "=0.8.0"
miniz_oxide = "=0.8.9"
embedded-sdmmc = { version = "=0.9.0", default-features = false }
embedded-hal = "=1.0.0"
