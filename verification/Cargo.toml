[package]
name = "stack_lang"
version = "0.1.0"
edition = "2021"
publish = false

[dependencies]
base64 = "=0.21.7"
clap = "=3.2.25"
clearscreen = "=2.0.1"
clipboard = "0.5"
nalgebra = "=0.32.6"
native-dialog = "0.6"
opener = "=0.6.1"
percent-encoding = "=2.3.2"
petgraph = "=0.6.5"
rand = "=0.8.8"
regex = "=1.13.1"
reqwest = { version = "0.11", default-features = false, features = ["blocking"] }
rusqlite = { version = "=0.29.0", features = ["bundled"] }
serde_json = "=1.0.154"
sys-info = "=0.9.1"
tera = { version = "=1.20.1", default-features = false }
