[package]
name = "sysy_compiler"
version = "0.1.0"
edition = "2021"
publish = false

[dependencies]
koopa = "*"
smallvec = "*"
anyhow = "*"
lazy-static-include = "*"
strum_macros = "*"
lalrpop-util = "*"
