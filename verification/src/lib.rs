//! Verified core of the PiSugar BLE Wi-Fi configuration service and its
//! BLE-SSH client: UUID handling, the chunked BLE text protocol, the
//! wpa_supplicant configuration rewrite, advertising payloads, the SSH tunnel
//! control protocol and the tray client's state.
pub mod text;
pub mod chars;
pub mod scan;
pub mod lines;
pub mod wifi;
pub mod device_info;
pub mod advertising;
pub mod tunnel;
pub mod connections;
pub mod port_runs;
pub mod worker;
pub mod bench;
pub mod uuid;
pub mod protocol;
pub mod config;
pub mod custom_command;
pub mod aliases;
pub mod speed;
pub mod tray;
