[package]
name = "fishbowl"
version = "0.1.0"
edition = "2021"
publish = false

[dependencies]
errno = "0.3.14"
libc = "0.2"
nix = { version = "0.31.3", features = ["fs", "process", "signal"] }
windows-sys = { version = "0.61.2", features = ["Win32_Foundation", "Win32_Security", "Win32_Storage_FileSystem", "Win32_System_IO", "Win32_System_LibraryLoader", "Win32_System_Threading"] }
