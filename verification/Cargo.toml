[package]
name = "spectrum"
version = "0.1.0"
edition = "2021"
publish = false

[dependencies]
geo = "=0.33.1"
geojson = { version = "=1.0.0", features = ["geo-types"] }
serde = { version = "*", features = ["derive"] }
serde_json = "*"
url = "*"
clap = { version = "*", features = ["derive"] }
tokio = { version = "*", features = ["rt-multi-thread", "macros", "net"] }
axum = "*"
reqwest = { version = "*", default-features = false, features = ["json"] }
flatgeobuf = "=6.0.1"
geozero = "=0.15.1"
osmpbf = "=0.3.8"
cavalier_contours = "*"
