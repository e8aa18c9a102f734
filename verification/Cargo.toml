[package]
name = "cobs"
version = "0.5.0"
edition = "2021"
publish = false

[dependencies]
heapless = "0.9"
thiserror = { version = "2", default-features = false }
serde = { version = "1", default-features = false, features = ["derive"] }
defmt = "1"

[dev-dependencies]
quickcheck = { version = "1", default-features = false }
