[package]
name = "pastelito"
version = "0.1.0"
edition = "2021"
publish = false

[dependencies]
fxhash = "*"
pulldown-cmark = { version = "*", default-features = false }
smallvec = "*"
speedy = "*"
tokio = { version = "*", features = ["io-std", "macros", "rt-multi-thread"] }
tower-lsp = "*"
