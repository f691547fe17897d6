[package]
name = "bootloader"
version = "0.1.0"
edition = "2021"
publish = false

[dependencies]
cortex-m = "=0.7.10"
cortex-m-rt = "=0.7.7"
embassy-nrf = { version = "=0.11.0", features = ["nrf52840", "unstable-pac"] }
embedded-storage = "=0.3.2"
nrf-softdevice-mbr = "=0.2.0"

[dev-dependencies]
miniz_oxide = "=0.9.1"
