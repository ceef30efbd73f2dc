[package]
name = "vmp"
version = "0.1.0"
edition = "2021"
publish = false

[dependencies]
iced-x86 = "1.21"
thiserror = "2.0"
