[package]
name = "membridge"
version = "0.1.0"
edition = "2021"
publish = false

[dependencies]
nix = { version = "0.29", features = ["mman", "fs"] }
pyo3 = { version = "0.27", features = ["extension-module"] }
windows = { version = "0.58", features = ["Win32_Foundation", "Win32_System_Memory", "Win32_Security"] }
