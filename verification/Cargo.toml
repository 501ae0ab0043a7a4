[package]
name = "xdp_compatibility"
version = "0.1.0"
edition = "2021"
publish = false

[dependencies]
agave-logger = { version = "~4.0", features = ["agave-unstable-api"] }
agave-xdp = { version = "~4.0", features = ["agave-unstable-api"] }
caps = "0.5"
clap = { version = "4", features = ["derive"] }
crossbeam-channel = "0.5"
log = "0.4"
rand = "0.9"
solana-clap-utils = { version = "~4.0", features = ["agave-unstable-api"] }
solana-net-utils = { version = "~4.0", features = ["agave-unstable-api"] }
