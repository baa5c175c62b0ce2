[package]
name = "repatch"
version = "0.1.0"
edition = "2021"
publish = false

[dependencies]
anstyle = "*"
anyhow = "*"
bstr = "*"
clap = { version = "*", features = ["derive"] }
diffy = { version = "*", features = ["std", "color"] }
grep-matcher = "*"
grep-regex = "*"
grep-searcher = "*"
ignore = "*"
libc = "*"

[dev-dependencies]
tempfile = "*"
