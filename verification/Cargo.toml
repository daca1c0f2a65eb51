[package]
name = "fmf_core"
version = "0.1.0"
edition = "2021"
publish = false

[dependencies]
rustc-hash = "2"
rayon = "1"
xxhash-rust = { version = "0.8", features = ["xxh64"] }
parking_lot = "0.12"
serde = { version = "1", features = ["derive"] }
thiserror = "2"
tracing = "0.1"
tracing-appender = "0.2"
tracing-subscriber = { version = "0.3", features = ["env-filter", "registry"] }
windows-sys = { version = "0.59", features = ["Win32_Foundation", "Win32_Storage_FileSystem", "Win32_System_ProcessStatus", "Win32_System_Threading", "Win32_System_SystemInformation", "Win32_System_Time"] }
