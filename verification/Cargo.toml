[package]
name = "kernel"
version = "0.1.0"
edition = "2021"
publish = false

[dependencies]
bootloader_api = "0.11"
clap = { version = "4", features = ["derive"] }
linked_list_allocator = { version = "0.10", default-features = false }
log = "0.4"
ovmf-prebuilt = "0.1.0-alpha.1"
spin = "0.9"
spinning_top = "0.3"
x86_64 = { version = "0.15", default-features = false, features = ["instructions"] }
