[package]
name = "secure_link"
version = "0.1.0"
edition = "2021"
publish = false

[dependencies]
heapless = "=0.7.17"
postcard = "=1.1.3"
serde = { version = "=1.0.229", default-features = false, features = ["derive"] }
nb = "=1.1.0"
cortex-m = "=0.7.10"
cortex-m-rt = "=0.7.7"
stm32f0xx-hal = { version = "=0.18.0", features = ["stm32f030x8", "rt"] }
