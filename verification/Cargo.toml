[package]
name = "rboot"
version = "0.1.0"
edition = "2021"
publish = false

[dependencies]
log = "*"
uefi = "*"
uefi-services = "*"
x86_64 = "*"
aarch64 = "*"
xmas-elf = "*"
