[package]
name = "serotonin"
version = "0.1.0"
edition = "2021"
publish = false

[dependencies]
bfi = "*"
autoperm = "*"
snailquote = "*"
num = "0.4"
either = "1"
lasso = "*"
logos = "0.12"
codespan-reporting = "0.11"
clap = { version = "3", features = ["cargo"] }
colored = "2"

[dev-dependencies]
rand = "0.8"
