[package]
name = "my_own_redis"
version = "0.1.0"
edition = "2021"
publish = false

[dependencies]
anyhow = "1"
error-iter = "*"
libc = "0.2"
onlyerror = "*"
