[package]
name = "weechat"
version = "0.1.0"
edition = "2021"
publish = false

[dependencies]
libc = "0.2"
ncurses = "5"
gtk = "0.8"
websocket = { version = "*", default-features = false, features = ["sync"] }

[dev-dependencies]
nom = "4"
