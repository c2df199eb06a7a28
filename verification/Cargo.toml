[package]
name = "gemcrawl"
version = "0.1.0"
edition = "2021"
publish = false

[dependencies]
gmi = "=0.2.1"
unqlite = "=1.4.3"
log = "*"
stderrlog = "*"
tokio = { version = "*", features = ["macros", "rt-multi-thread"] }
