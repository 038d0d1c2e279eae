[package]
name = "minitorrent"
version = "0.1.0"
edition = "2021"
publish = false

[dependencies]
critical-section = "*"
defmt = "*"
embassy-executor = "*"
embassy-net = { version = "*", features = ["tcp", "dns", "dhcpv4", "proto-ipv4", "medium-ethernet"] }
embassy-time = "*"
embedded-hal-bus = "*"
embedded-sdmmc = "*"
esp-alloc = "*"
esp-bootloader-esp-idf = "*"
esp-hal = { version = "*", features = ["esp32c3"] }
esp-radio = "*"
esp-rtos = "*"
panic-rtt-target = "*"
reqwless = { version = "*", default-features = false }
rtt-target = "*"
sha1_smol = "=1.0.1"
static_cell = "*"
