[package]
name = "metric-gauge"
version = "0.1.0"
edition = "2021"
publish = false

[dependencies]
display-interface = "=0.5.0"
embassy-executor = "=0.10.0"
embassy-net = { version = "=0.9.1", features = ["dhcpv4", "dns", "tcp", "proto-ipv4", "medium-ethernet"] }
embassy-time = "=0.5.1"
embedded-graphics = "=0.8.2"
embedded-hal-bus = "=0.3.0"
embedded-io-async = "=0.7.0"
embedded-tls = { version = "=0.19.0", default-features = false }
esp-alloc = "=0.11.0"
esp-bootloader-esp-idf = { version = "=0.5.0", features = ["esp32c3"] }
esp-hal = { version = "=1.1.2", features = ["esp32c3", "unstable"] }
esp-println = { version = "=0.18.0", features = ["esp32c3", "log-04"] }
esp-radio = { version = "=0.18.0", features = ["esp32c3", "wifi", "unstable"] }
esp-rtos = { version = "=0.3.0", features = ["esp32c3", "embassy", "esp-radio"] }
gc9a01-rs = "=0.4.2"
heapless = "=0.8.0"
libm = "=0.2.16"
rand_chacha = { version = "0.3", default-features = false }
rand_core = "0.6"
static_cell = "=2.1.1"
