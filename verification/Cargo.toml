[package]
name = "screen_time"
version = "0.1.0"
edition = "2021"
publish = false

[dependencies]
socket2 = "*"
notify-rust = "*"
dotenvy = "*"
signal-hook = "*"
active-win-pos-rs = "*"

[dev-dependencies]
rand = "*"
