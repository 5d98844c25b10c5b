[package]
name = "kernel"
version = "0.1.0"
edition = "2021"
publish = false

[dependencies]
xmas-elf = "*"
stivale-boot = "*"
log = "*"
