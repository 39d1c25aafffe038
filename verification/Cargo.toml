[package]
name = "railway"
version = "0.1.0"
edition = "2021"
publish = false

[dependencies]
log = "=0.4.34"
rgb = "=0.8.53"
vek = "=0.17.2"
zeno = "=0.3.3"
