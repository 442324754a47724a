[package]
name = "sni_icon"
version = "0.1.0"
edition = "2021"
publish = false

[dependencies]
sha2 = "0.10"
dbus = "0.9"
dbus-tokio = "0.7"
dbus-crossroads = "0.5"
futures-util = "0.3"
tokio = { version = "1", features = ["rt", "io-std", "io-util", "macros"] }
