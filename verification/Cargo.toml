[package]
name = "gfx"
version = "0.1.0"
edition = "2021"
publish = false

[dependencies]
rusttype = "0.9"
static_assertions = "1"
winapi = { version = "0.3", features = ["errhandlingapi", "libloaderapi", "minwindef", "windef", "wingdi", "winuser"] }
