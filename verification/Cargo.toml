[package]
name = "serdir"
version = "0.4.0"
edition = "2021"
publish = false

[dependencies]
brotli = "*"
bytes = "1"
fixed-cache = "*"
futures-core = "0.3"
futures-util = "0.3"
http = "1"
log = "0.4"
memchr = "2"
mime_guess = "2"
rapidhash = "*"
sieve-cache = "*"
tempfile = "3"
tokio = { version = "1", features = ["rt", "rt-multi-thread"] }
