[package]
name = "wsearch"
version = "0.1.0"
edition = "2021"
publish = false

[dependencies]
base64 = "=0.22.1"
bincode = "=1.3.3"
flate2 = "=1.1.10"
jwalk = "=0.9.0"
notify = "=8.2.1"
rayon = "=1.12.0"
serde = { version = "=1.0.229", features = ["derive"] }
sysinfo = "=0.40.1"
windows = { version = "=0.62.2", features = ["Win32_Foundation", "Win32_Graphics_Gdi", "Win32_Storage_FileSystem", "Win32_UI_Shell", "Win32_UI_WindowsAndMessaging"] }
