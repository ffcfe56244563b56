[package]
name = "rift_core"
version = "0.1.0"
edition = "2021"
publish = false

[dependencies]
rusqlite = { version = "*", features = ["bundled"] }
git2 = { version = "*", default-features = false, features = ["vendored-libgit2"] }

[dev-dependencies]
tempfile = "3"
