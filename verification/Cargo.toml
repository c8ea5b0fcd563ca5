[package]
name = "link_interceptor"
version = "0.1.0"
edition = "2021"
publish = false

[dependencies]
chrono = { version = "0.4", features = ["serde"] }
url = "2"
serde = { version = "1", features = ["derive"] }
serde_yaml = "0.9"
thiserror = "2"
dirs = "6"
open = "5"
crossbeam-channel = "0.5"
winreg = "0.55"
windows = { version = "0.61", features = ["Win32_Foundation", "Win32_UI_HiDpi", "Win32_UI_Shell", "Win32_UI_WindowsAndMessaging"] }
