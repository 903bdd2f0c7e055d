[package]
name = "backupfs"
version = "0.1.0"
edition = "2021"
publish = false

[dependencies]
aes = "*"
aes-kw = "*"
pbkdf2 = "*"
sha1 = "*"
sha2 = "*"
plist = "*"
serde = { version = "*", features = ["derive"] }
chrono = { version = "*", features = ["serde"] }
fuser = "*"
rusqlite = { version = "*", features = ["bundled"] }
libsqlite3-sys = "*"

[dev-dependencies]
cbc = "*"
cipher = "*"
