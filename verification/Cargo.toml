[package]
name = "fragment_tree"
version = "0.1.0"
edition = "2021"
publish = false

[dependencies]
arrow-array = { version = "*", default-features = false }
arrow-buffer = "*"
arrow-schema = "*"
async-trait = "0.1"
byteorder = "1"
bytes = "1"
futures = "0.3"
object_store = { version = "*", default-features = false }
prost = { version = "*", features = ["derive"] }
roaring = "*"
tokio = { version = "1", features = ["fs", "rt", "sync", "time"] }
uuid = { version = "1", features = ["v4"] }
