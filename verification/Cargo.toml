[package]
name = "wicara"
version = "0.1.0"
edition = "2021"
publish = false

[dependencies]
anyhow = "1"
argon2 = "0.6"
axum = { version = "0.8", default-features = false, features = ["http1", "tokio"] }
base64 = "0.23"
blake3 = "1.8"
chacha20poly1305 = "0.11"
chrono = { version = "0.4", default-features = false, features = ["clock", "alloc"] }
clap = { version = "4", features = ["derive", "env"] }
data-encoding = "2"
directories = "6"
ed25519-dalek = "3"
getrandom = "0.4"
postcard = { version = "1", default-features = false, features = ["use-std"] }
ratatui = { version = "0.30", default-features = false, features = ["crossterm"] }
reqwest = { version = "0.13", default-features = false }
rpassword = "7"
rusqlite = { version = "0.41", features = ["bundled"] }
serde = { version = "1", features = ["derive"] }
tokio = { version = "1", features = ["rt-multi-thread", "macros", "net", "io-util", "sync", "time", "fs"] }
tracing = "0.1"
tracing-subscriber = { version = "0.3", features = ["env-filter"] }
unicode-width = "0.2"
x25519-dalek = { version = "3", features = ["static_secrets", "getrandom"] }
zeroize = "1"
