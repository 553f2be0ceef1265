[package]
name = "rfs_client"
version = "0.1.0"
edition = "2021"
publish = false

[dependencies]
lru = "*"
serde_json = "*"
glob = "*"
reqwest = { version = "*", default-features = false, features = ["blocking", "json", "cookies"] }
clap = { version = "*", features = ["derive"] }
fuser = "*"
libc = "*"
daemonize = "*"
signal-hook = "*"
ctrlc = "*"
rpassword = "*"
