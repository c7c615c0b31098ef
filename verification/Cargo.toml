[package]
name = "gfx_tool"
version = "0.1.0"
edition = "2021"
publish = false

[dependencies]
clap = { version = "=4.6.7", features = ["derive"] }
mercs2_formats = "=1.0.0"
