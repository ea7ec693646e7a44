[package]
name = "blog_core"
version = "0.1.0"
edition = "2021"
publish = false

[dependencies]
axum = "*"
axum-extra = { version = "*", features = ["cookie"] }
chrono = "*"
chrono-tz = "*"
comrak = "*"
hyper = "*"
maud = "*"
tokio = { version = "*", features = ["macros", "rt-multi-thread", "net"] }

[dev-dependencies]
serde_json = "*"
