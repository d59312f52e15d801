[package]
name = "ryzr"
version = "0.1.0"
edition = "2021"
publish = false

[dependencies]
bevy = { version = "0.17", default-features = false, features = ["bevy_ui", "bevy_window", "std"] }
cranelift-codegen = "=0.130.2"
cranelift-entity = "=0.130.2"
cranelift-frontend = "=0.130.2"
cranelift-jit = "=0.130.2"
cranelift-module = "=0.130.2"
cranelift-native = "=0.130.2"
rayon = "=1.12.0"
