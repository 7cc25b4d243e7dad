[package]
name = "keccak_machine"
version = "0.1.0"
edition = "2021"
publish = false

[dependencies]
p3-field = "*"
p3-baby-bear = "*"
p3-keccak = "*"
p3-keccak-air = "*"
p3-matrix = "*"
p3-air = "*"
p3-util = "*"
p3-uni-stark = "*"
p3-commit = "*"
p3-challenger = "*"
p3-maybe-rayon = "*"
tiny-keccak = { version = "2", features = ["keccak"] }
itertools = "*"
tracing = "*"
serde = { version = "1", features = ["derive"] }
rust_xlsxwriter = "*"
