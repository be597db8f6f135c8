[package]
name = "nixe-cpu-jit"
version = "0.1.0"
edition = "2021"
publish = false

[dependencies]
hashbrown = "0.16"
libc = "0.2"
log = "0.4"
cranelift-codegen = "0.134"
cranelift-frontend = "0.134"
cranelift-module = "0.134"
cranelift-jit = "0.134"
cranelift-native = "0.134"
wasmtime-internal-jit-icache-coherence = "47"
