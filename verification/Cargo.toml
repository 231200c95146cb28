[package]
name = "fluvial"
version = "0.3.4"
edition = "2021"
publish = false

[dependencies]
anyhow = "1"
clap = { version = "4", features = ["derive"] }
clap-verbosity-flag = "2"
csv = "1"
hsluv = "0.1"
indicatif = "0.17"
log = "0.4"
native-tls = "0.2"
rand = "0.8"
rusqlite = { version = "0.29", features = ["bundled", "csvtab"] }
serde = { version = "1", features = ["derive"] }
serde_rusqlite = "0.33"
simple_logger = "4"
tempfile = "3"
tree_magic_mini = "3"
ureq = { version = "2", features = ["native-tls"] }
zip = { version = "0.6", default-features = false, features = ["deflate"] }
