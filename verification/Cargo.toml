[package]
name = "logitray"
version = "0.3.0"
edition = "2021"
publish = false

[dependencies]
anyhow = "=1.0.104"
dirs = "=5.0.1"
serde = { version = "=1.0.229", features = ["derive"] }
toml = "=0.8.23"
tracing = "=0.1.44"
tauri-winrt-notification = "*"
winreg = "*"
windows = { version = "*", features = ["Devices_Bluetooth", "Devices_Bluetooth_GenericAttributeProfile", "Devices_Enumeration", "Foundation", "Foundation_Collections", "Storage_Streams", "Win32_System_WinRT"] }
