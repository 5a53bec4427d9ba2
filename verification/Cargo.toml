[package]
name = "air_rs"
version = "0.1.0"
edition = "2021"
publish = false

[dependencies]
axum = { version = "*", features = ["ws"] }
byteorder = "1"
chrono = "0.4"
clap = { version = "4", features = ["derive"] }
color-eyre = "*"
crossterm = "*"
futures-util = "0.3"
num-complex = "0.4"
plotters = { version = "0.3", default-features = false, features = ["svg_backend", "bitmap_backend", "bitmap_encoder", "line_series"] }
ratatui = "*"
serde = { version = "1", features = ["derive"] }
serde_json = "1"
soapysdr = "*"
tokio = { version = "1", features = ["rt-multi-thread", "macros", "net", "sync", "time"] }
tower-http = { version = "*", features = ["fs"] }
ts-rs = "*"
