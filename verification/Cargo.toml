[package]
name = "butterflyvr"
version = "0.1.0"
edition = "2021"
publish = false

[dependencies]
bitvec = "1"
argon2 = "0.5"
uuid = "1"
zstd = "0.13"
moka = { version = "0.12", features = ["sync"] }
godot = "*"
tokio = { version = "1", features = ["rt", "sync"] }
agones = "*"
quiche = { version = "*", features = ["boringssl-boring-crate"] }
boring = "*"
bytes = "1"
ring = "0.17"
rand = "*"
serde = { version = "1", features = ["derive"] }

[dev-dependencies]
nom = "7"
