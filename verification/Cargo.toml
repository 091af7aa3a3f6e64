[package]
name = "logging"
version = "0.1.0"
edition = "2021"
publish = false

[dependencies]
chrono = "*"
hyper = "0.10"
uuid = { version = "*", features = ["v4"] }
decimal = "*"
slog = "*"
sloggers = "*"
termion = "*"
zmq = "*"
ordermap = "*"
fnv = "*"

[dev-dependencies]
