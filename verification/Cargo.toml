[package]
name = "llvm_compiler"
version = "0.1.0"
edition = "2021"
publish = false

[dependencies]
miette = "=7.6.0"
packed_struct = "*"
pretty_env_logger = "=0.5.0"
