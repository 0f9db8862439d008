[package]
name = "dtp_utils"
version = "0.1.0"
edition = "2021"
publish = false

[dependencies]
docopt = "1"
env_logger = "0.7"
log = "0.4"
mio = { version = "0.7", features = ["os-poll", "net"] }
ring = "0.17"
url = "2"
