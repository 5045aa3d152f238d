[package]
name = "apfsearch_core"
version = "0.1.0"
edition = "2021"
publish = false

[dependencies]
arc-swap = "1"
chrono = "0.4"
icu_casemap = "2"
libc = "0.2"
memchr = "2"
memmap2 = "0.9"
pcre2 = "0.2"
rayon = "1"
roaring = "0.11.5"
rusqlite = { version = "*", features = ["bundled"] }
serde = { version = "1", features = ["derive"] }
serde_json = "1"
unicode-normalization = "0.1"

[dev-dependencies]
chrono-tz = "*"
tempfile = "3"
