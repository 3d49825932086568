[package]
name = "book_routes"
version = "0.1.0"
edition = "2021"
publish = false

[dependencies]
axum = { version = "0.8", default-features = false }

[dev-dependencies]
tower-service = "0.3"
