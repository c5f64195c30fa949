[package]
name = "eqsat"
version = "0.1.0"
edition = "2021"
publish = false

[dependencies]
indexmap = "2"
fxhash = "0.2"
symbolic_expressions = "*"

[dev-dependencies]
rand = "0.8"
