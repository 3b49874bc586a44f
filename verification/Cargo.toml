[package]
name = "planty"
version = "0.1.0"
edition = "2021"
publish = false

[dependencies]
embassy-executor = "*"
embassy-futures = "*"
embassy-net = "*"
embassy-time = "*"
embedded-graphics = "*"
embedded-hal = "*"
embedded-io-async = "*"
embedded-storage = "*"
esp-alloc = "*"
esp-backtrace = "*"
esp-bootloader-esp-idf = "*"
esp-hal = "*"
esp-println = "*"
esp-radio = "*"
esp-rtos = "*"
esp-storage = "*"
nb = "*"
ssd1306 = "*"
