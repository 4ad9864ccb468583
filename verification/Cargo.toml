[package]
name = "kit_kernel"
version = "0.1.0"
edition = "2021"
publish = false

[dependencies]
log = "0.4"
displaydoc = "0.2"
libc = "0.2"
static_assertions = "1"
