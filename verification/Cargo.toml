[package]
name = "r-port-doctor"
version = "0.1.0"
edition = "2021"
publish = false

[dependencies]
clap = { version = "=4.6.7", features = ["derive"] }
colored = "=3.1.1"
dashmap = "=6.2.1"
dirs = "=7.0.0"
dns-lookup = "=4.0.2"
enable-ansi-support = "=0.3.1"
regex = "=1.13.1"
serde = { version = "=1.0.229", features = ["derive"] }
serde_json = "=1.0.154"
strip-ansi-escapes = "=0.2.1"
toml = "=1.1.8"
windows = { version = "=0.58.0", features = ["Win32_Foundation", "Win32_NetworkManagement_IpHelper", "Win32_Networking_WinSock", "Win32_Storage_FileSystem", "Win32_System_Diagnostics_ToolHelp", "Win32_System_ProcessStatus", "Win32_System_SystemInformation", "Win32_System_Threading"] }
