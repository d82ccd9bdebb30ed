[package]
name = "rusty_alloc"
version = "2.2.0"
edition = "2021"
publish = false

[dependencies]
libc = "0.2"
