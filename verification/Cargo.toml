[package]
name = "share_module_split"
version = "0.1.0"
edition = "2021"
publish = false

[dependencies]
napi = "3"
napi-derive = "3"
rspack_core = "=0.2.0"
rspack_error = "=0.2.0"
rspack_hook = "=0.2.0"
rspack_sources = "=0.3.4"
