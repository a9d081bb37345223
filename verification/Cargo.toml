[package]
name = "kiri-core"
version = "0.1.0"
edition = "2021"
publish = false

[dependencies]
ash = "=0.37.3"
gpu-alloc = "=0.6.0"
gpu-alloc-ash = "=0.6.0"
gpu-descriptor = "=0.2.4"
gpu-descriptor-ash = "=0.2.0"
parking_lot = "=0.12.5"
