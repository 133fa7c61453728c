[package]
name = "sqlx_sqruff_core"
version = "0.1.0"
edition = "2021"
publish = false

[dependencies]
syn = { version = "=2.0.119", features = ["full", "visit"] }
proc-macro2 = { version = "=1.0.107", features = ["span-locations"] }
sqruff-lib = "=0.38.0"
sqruff-lib-core = "=0.38.0"
anyhow = "=1.0.104"
clap = { version = "=4.6.7", features = ["derive"] }
walkdir = "=2.5.0"
