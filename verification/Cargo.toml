[package]
name = "dotmake"
version = "0.1.0"
edition = "2021"
publish = false

[dependencies]
colored = "2"
dialoguer = "*"
itertools = "0.10"
lazy_static = "1"
maplit = "1"
once_cell = "1"
regex = "1"
serde = { version = "1", features = ["derive"] }
serde_derive = "1"
serde_json = "1"
serde_yaml = "0.8"
shellexpand = "2"
structopt = "0.3"
tempdir = "0.3"
textwrap = "*"
thiserror = "1"
