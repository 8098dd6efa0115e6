[package]
name = "scx_topology"
version = "0.1.0"
edition = "2021"
publish = false

[dependencies]
anyhow = "1"
bitvec = "1"
glob = "0.3"
lazy_static = "1"
libbpf-rs = "0.24"
sscanf = "0.4"
