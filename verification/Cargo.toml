[package]
name = "vertical"
version = "0.1.0"
edition = "2021"
publish = false

[dependencies]
factorio-blueprint = "=0.3.0"
noisy_float = "=0.1.15"
lalrpop-util = "=0.23.2"
