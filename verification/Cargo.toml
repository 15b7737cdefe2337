[package]
name = "addcomb_comp"
version = "0.1.0"
edition = "2021"
publish = false

[dependencies]
itertools = "*"
array_tool = "*"
rayon = "*"
rustbreak = { version = "2", features = ["bin_enc"] }
serde = { version = "1", features = ["derive"] }
lazy_static = "*"
cpython = "*"

[dev-dependencies]
rand = "0.7"
