[package]
name = "mip"
version = "0.1.0"
edition = "2021"
publish = false

[dependencies]
pulldown-cmark = "=0.13.6"
gray_matter = "=0.2.9"
rand = "=0.9.5"
rust-embed = { version = "=8.13.0", features = ["interpolate-folder-path"] }
notify = "=6.1.1"
serde = { version = "=1.0.229", features = ["derive"] }
toml = "=0.8.23"
warp = "=0.3.7"
tokio = { version = "=1.54.1", features = ["rt-multi-thread", "macros"] }
futures-channel = "=0.3.34"
argh = "=0.1.19"
gtk4 = "=0.9.7"
webkit6 = "=0.4.0"
