[package]
name = "ferralk"
version = "0.12.0"
edition = "2021"
publish = false

[dependencies]
ferralk-glob = "=0.6.1"
libc = "=0.2.191"
memchr = "=2.8.3"
unicode-normalization = "=0.1.26"

[dev-dependencies]
ignore = "=0.4.34"
