[package]
name = "isyswasfa"
version = "0.1.0"
edition = "2021"
publish = false

[dependencies]
wasmtime = { version = "17", default-features = false, features = ["async", "component-model", "cranelift"] }
wasmtime-wasi = "17"
wasmparser = "0.118"
futures = "0.3"
anyhow = "1"
async-trait = "0.1"
once_cell = "1"
tokio = { version = "1", features = ["macros", "rt-multi-thread", "fs", "process", "time"] }
