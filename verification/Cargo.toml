[package]
name = "mt_postings"
version = "0.1.0"
edition = "2021"
publish = false

[dependencies]
clap = { version = "4", features = ["derive"] }
fjall = "3"
indicatif = "*"
leb128 = "*"
tantivy = { version = "*", default-features = false }
tikv-jemallocator = "*"

[dev-dependencies]
tempfile = "3"
