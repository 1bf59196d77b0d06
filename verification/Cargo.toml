[package]
name = "outlines_core"
version = "0.1.0"
edition = "2021"
publish = false

[dependencies]
regex-automata = "0.4"
bincode = "2"
anyhow = "1"
pprof = { version = "*", features = ["flamegraph"] }
