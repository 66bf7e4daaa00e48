[package]
name = "adventus_codicis_mmxxiv"
version = "0.1.0"
edition = "2021"
publish = false

[dependencies]
rayon = "*"
anyhow = "*"

[dev-dependencies]
regex = "*"
