[package]
name = "rjson"
version = "0.1.0"
edition = "2021"
publish = false

[dependencies]
serde_json = "1"
regex = "1"
debounce = "*"
once_cell = "1"
lazy_static = "1"
log = "0.4"
tracing-subscriber = "*"
weak-table = "*"
