[package]
name = "gitplot"
version = "0.1.0"
edition = "2021"
publish = false

[dependencies]
tokei = "12.1"
chrono = "0.4"
git2 = { version = "0.19", default-features = false, features = ["vendored-libgit2"] }
tokio = { version = "1", features = ["sync", "rt"] }
