[package]
name = "nrf5x_ws2812b"
version = "0.1.0"
edition = "2021"
publish = false

[dependencies]
cortex-m = "0.7"
nrf52840-pac = "0.12"
volatile = "0.5"
