[package]
name = "ni_watcher"
version = "0.1.0"
edition = "2021"
publish = false

[dependencies]
image = "*"
notify = "*"
log = "*"
simplelog = "*"
dotenvy = "*"
windows-service = "*"
once_cell = "*"
