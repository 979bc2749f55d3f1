[package]
name = "build_content_pack"
version = "0.1.0"
edition = "2021"
publish = false

[dependencies]
anyhow = "1"
bitvec = "1"
caseless = "0.2"
clap = { version = "4", features = ["derive"] }
file-id = "*"
oxipng = "*"
parking_lot = "0.12"
png = "*"
resvg = "*"
serde_json = "1"
serde-transcode = "1"
toml = "*"
unicode-normalization = "0.1"
unicode-segmentation = "1"
zip = "*"
