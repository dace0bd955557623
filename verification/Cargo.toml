[package]
name = "immortal"
version = "0.1.0"
edition = "2021"
publish = false

[dependencies]
unicode_categories = "=0.1.1"
unicode-normalization = "=0.1.26"
bincode = { version = "=2.0.1", features = ["serde"] }
serde = { version = "=1.0.229", features = ["derive"] }
thiserror = "=2.0.21"
tracing = "=0.1.44"
rayon = "1"
