[package]
name = "praesidium"
version = "0.1.0"
edition = "2021"
publish = false

[dependencies]
linked_list_allocator = "0.10"
x86_64 = { version = "0.15", default-features = false, features = ["instructions"] }
