[package]
name = "invoy"
version = "0.1.0"
edition = "2021"
publish = false

[dependencies]
clap = { version = "=4.6.7", features = ["derive"] }
directories = "=6.0.0"
flutter_rust_bridge = "=2.13.0"
freedesktop-icons = "=0.4.0"
lopdf = "*"
rayon = "=1.12.0"
rfd = { version = "=0.17.2", default-features = false, features = ["xdg-portal"] }
thiserror = "=2.0.21"
walkdir = "=2.5.0"
windows-sys = { version = "=0.61.2", features = ["Win32_Foundation", "Win32_UI_WindowsAndMessaging"] }

[dev-dependencies]
regex = "=1.13.1"
