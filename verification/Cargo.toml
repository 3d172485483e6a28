[package]
name = "zg"
version = "0.1.0"
edition = "2021"
publish = false

[dependencies]
anyhow = "=1.0.104"
clap = { version = "=4.6.7", features = ["derive"] }
dirs = "=7.0.0"
git2 = { version = "=0.20.4", default-features = false, features = ["vendored-libgit2"] }
grep = "=0.4.1"
ignore = "=0.4.33"
minijinja = { version = "=3.0.3", features = ["serde"] }
serde_json = "=1.0.154"
termcolor = "=1.4.1"
walkdir = "=2.5.0"
