[package]
name = "valkey_timeseries"
version = "0.1.0"
edition = "2021"
publish = false

[dependencies]
simd-json = "0.17"
range-set-blaze = "0.5"
orx-parallel = "=3.4.0"
valkey-module = "0.1.15"
logger-rust = "0.2.12"
