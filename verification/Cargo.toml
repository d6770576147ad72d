[package]
name = "panoptes"
version = "0.1.0"
edition = "2021"
publish = false

[dependencies]
ndarray = "0.16"
geo = "*"
geo-types = "0.7"
geojson = "*"
serde = { version = "1", features = ["derive"] }
serde_json = "1"
image = { version = "0.25", default-features = false, features = ["png", "jpeg", "tiff"] }
rayon = "1"
clap = { version = "4", features = ["derive"] }
thiserror = "2"
