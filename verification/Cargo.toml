[package]
name = "pdb-addr2line"
version = "0.1.0"
edition = "2021"
publish = false

[dependencies]
pdb = "0.7"
maybe-owned = "0.3"
range-collections = "0.1"
