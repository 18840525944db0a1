[package]
name = "sugar-wifi-conf"
version = "0.1.0"
edition = "2021"
publish = false

[dependencies]
uuid = "1"
log = "0.4"
env_logger = "*"
clap = { version = "4", features = ["derive"] }
serde = { version = "1", features = ["derive"] }
serde_json = "1"
tokio = { version = "1", features = ["full"] }
futures = "0.3"
tokio-stream = "0.1"
libc = "0.2"
dirs = "*"
console = "*"
dialoguer = "*"
bluer = { version = "*", features = ["bluetoothd"] }
btleplug = "*"
tao = "*"
tray-icon = "*"

[dev-dependencies]
regex = "1"
