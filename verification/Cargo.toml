[package]
name = "tessera"
version = "0.1.0"
edition = "2021"
publish = false

[dependencies]
serde = { version = "1", features = ["derive"] }
serde_json = "1"
anyhow = "1"
libc = "0.2"
futures-channel = "0.3"
futures-util = "0.3"
glib = "*"
gio = "*"
gtk4 = "*"
libadwaita = "*"
vte4 = "*"
