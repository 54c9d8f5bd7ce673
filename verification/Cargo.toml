[package]
name = "zmod"
version = "0.1.0"
edition = "2021"
publish = false

[dependencies]
napi = "=3.15.0"
napi-derive = "=3.6.13"
oxc_allocator = "0.135"
oxc_ast = "0.135"
oxc_ast_visit = "0.135"
oxc_parser = "0.135"
oxc_span = "0.135"
serde = { version = "=1.0.229", features = ["derive"] }
