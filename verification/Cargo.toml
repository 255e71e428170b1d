[package]
name = "void_kernel"
version = "0.1.0"
edition = "2021"
publish = false

[dependencies]
object = { version = "*", default-features = false, features = ["read", "std"] }
rustc-demangle = "*"
