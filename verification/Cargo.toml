[package]
name = "gc_lite"
version = "0.1.0"
edition = "2021"
publish = false

[dependencies]
smallvec = "1"
syn = { version = "2", features = ["full", "extra-traits"] }
quote = "1"
proc-macro2 = "1"
