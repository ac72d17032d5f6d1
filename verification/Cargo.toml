[package]
name = "tantivy_common"
version = "0.1.0"
edition = "2021"
publish = false

[dependencies]
ownedbytes = "*"

[dev-dependencies]
rand = "0.8"
