[package]
name = "rgitstats"
version = "0.1.0"
edition = "2021"
publish = false

[dependencies]
clap = "4"
git2 = { version = "*", default-features = false }
prettytable-rs = "0.10"
