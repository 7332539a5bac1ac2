[package]
name = "hyprwall"
version = "0.1.0"
edition = "2021"
publish = false

[dependencies]
anyhow = "1"
calloop = "0.14"
calloop-wayland-source = "*"
clap = { version = "4", features = ["derive"] }
dirs = "*"
glow = "*"
image = { version = "*", default-features = false, features = ["png"] }
khronos-egl = { version = "6", features = ["dynamic"] }
libc = "0.2"
libmpv2 = "*"
notify = "*"
notify-debouncer-mini = "*"
serde = { version = "1", features = ["derive"] }
serde_json = "1"
smithay-client-toolkit = "*"
tempfile = "3"
toml = "*"
wayland-client = "0.31"
wayland-egl = "*"
wayland-protocols-wlr = { version = "*", features = ["client"] }
