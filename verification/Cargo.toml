[package]
name = "discord_shortcut"
version = "0.1.0"
edition = "2021"
publish = false

[dependencies]
dirs = "*"
winapi = { version = "0.3", features = ["combaseapi", "objbase", "objidl", "shobjidl_core", "winerror", "wtypesbase"] }
