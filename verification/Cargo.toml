[package]
name = "kernel_mm"
version = "0.1.0"
edition = "2021"
publish = false

[dependencies]
xmas-elf = "0.7.0"
riscv = "0.10"
