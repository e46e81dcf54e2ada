[package]
name = "mapscrape"
version = "0.1.0"
edition = "2021"
publish = false

[dependencies]
bytes = "*"
clap = { version = "*", features = ["derive"] }
flate2 = "*"
futures = "*"
http = "*"
http-body-util = "*"
hyper = { version = "*", features = ["http1", "server"] }
hyper-util = { version = "*", features = ["tokio"] }
reqwest = { version = "*", default-features = false }
serde = { version = "*", features = ["derive"] }
serde_json = "*"
thirtyfour = "*"
tokio = { version = "*", features = ["full"] }
tokio-stream = "*"
url = "*"
