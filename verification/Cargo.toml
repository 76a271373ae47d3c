[package]
name = "zk_alloc"
version = "1.0.0"
edition = "2021"
publish = false

[dependencies]
libc = "0.2"
