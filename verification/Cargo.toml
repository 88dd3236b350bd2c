[package]
name = "segterm"
version = "0.1.0"
edition = "2021"
publish = false

[dependencies]
limine = "=0.5.0"
linked_list_allocator = "=0.10.6"
