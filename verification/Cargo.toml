[package]
name = "oxc_prettier"
version = "0.1.0"
edition = "2021"
publish = false

[dependencies]
oxc_allocator = "=0.4.0"
oxc_ast = "=0.4.0"
oxc_span = "=0.4.0"
