[package]
name = "uasset_edit"
version = "0.1.0"
edition = "2021"
publish = false

[dependencies]
clap = { version = "4", features = ["derive"] }
unreal_asset = "*"
