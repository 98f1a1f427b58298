[package]
name = "workbench_core"
version = "0.1.0"
edition = "2021"
publish = false

[dependencies]
sys-locale = "*"
serde = { version = "*", features = ["derive"] }
serde_json = "*"
toml = "*"
fluent-bundle = "*"
unic-langid = "*"
egui_tiles = "*"
