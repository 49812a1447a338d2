[package]
name = "gallery"
version = "0.1.0"
edition = "2021"
publish = false

[dependencies]
markdown = "*"
mime_guess = "2"
actix-web = { version = "4", default-features = false, features = ["macros"] }
actix-files = "0.6"
tokio = { version = "1", features = ["fs", "macros", "rt-multi-thread", "process", "sync", "io-util"] }
tokio-util = { version = "0.7", features = ["io"] }
async-fs = "2"
futures-lite = "2"
async-recursion = "1"
serde = { version = "1", features = ["derive"] }
image = { version = "0.25", default-features = false, features = ["jpeg", "png", "webp"] }
webp = "*"
include_dir = "0.7"
sailfish = "*"
compile-time = "*"
colog = "*"
log = "0.4"
