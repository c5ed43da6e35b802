[package]
name = "monoos"
version = "0.1.0"
edition = "2021"
publish = false

[dependencies]
x86_64 = { version = "=0.14.13", default-features = false, features = ["instructions"] }
spin = "=0.12.3"
linked_list_allocator = { version = "=0.10.6", default-features = false, features = ["use_spin"] }
log = "=0.4.34"
