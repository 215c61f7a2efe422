[package]
name = "kernel_node"
version = "0.1.0"
edition = "2021"
publish = false

[dependencies]
bitcoin = "=0.32.102"
secp256k1 = "=0.29.1"
silentpayments = "=0.5.0"
bdk_tx = "=0.2.0"
hex = "=0.4.3"
log = "=0.4.35"
capnp = "=0.27.3"
capnp-rpc = "=0.27.3"
clap = { version = "=4.6.7", features = ["derive"] }
env_logger = "=0.11.11"
futures = "=0.3.34"
tokio = { version = "=1.54.1", features = ["rt", "net", "io-util", "signal", "macros", "time"] }
tokio-util = { version = "=0.7.20", features = ["compat"] }
bitcoinkernel = "=0.2.1"
bitcoin-address-book = "=0.2.2"

[dev-dependencies]
serde_json = "=1.0.154"
