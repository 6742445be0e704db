[package]
name = "clac_lang"
version = "0.1.0"
edition = "2021"
publish = false

[dependencies]
ahash = "=0.8.12"
clap = { version = "4", features = ["derive"] }
cranelift = "0.127"
cranelift-jit = "0.127"
cranelift-module = "0.127"
cranelift-native = "0.127"
cranelift-object = "0.127"
memmap2 = "=0.9.12"
petgraph = "=0.8.3"
rustyline = "17"
sc = "=0.2.7"
thiserror = "2"
