[package]
name = "zdu"
version = "0.1.0"
edition = "2021"
publish = false

[dependencies]
chrono = "0.4"
clap = { version = "4", features = ["derive"] }
config-file = "0.2"
ctrlc = "3"
filesize = "0.2"
nu-ansi-term = "0.50"
portable-atomic = "1"
rayon = "1"
regex = "1"
serde = { version = "1", features = ["derive"] }
serde_json = "1"
stfu8 = "0.2"
terminal_size = "0.4"
winapi-util = "0.1"

[dev-dependencies]
tempfile = "3"
