[package]
name = "nier_mod_loader"
version = "0.1.0"
edition = "2021"
publish = false

[dependencies]
rust-ini = "*"
glob = "*"
winapi = { version = "*", features = ["minwindef", "libloaderapi", "ntdef", "winnt", "dxgi", "consoleapi", "d3d11", "d3dcommon"] }
retour = { version = "*", features = ["static-detour"] }
dll-syringe = "*"
