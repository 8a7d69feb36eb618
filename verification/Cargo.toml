[package]
name = "ledger_balances"
version = "0.1.0"
edition = "2021"
publish = false

[dependencies]
anyhow = "1"
clap = { version = "4", features = ["derive"] }
futures = "0.3"
ledger-parser = "*"
plotters = { version = "0.3", default-features = false, features = ["bitmap_backend", "bitmap_encoder", "all_series", "ab_glyph"] }
plotters-backend = "0.3"
rust_decimal = "1"
tokio = { version = "1", features = ["fs", "io-util", "rt-multi-thread", "macros"] }
tokio-util = { version = "0.7", features = ["codec"] }
