[package]
name = "rfid_thingy"
version = "0.1.0"
edition = "2021"
publish = false

[dependencies]
mfrc522 = "=0.8.0"
bytemuck = { version = "=1.25.2", features = ["min_const_generics"] }
smart-leds = "=0.4.0"
serde = { version = "=1.0.229", default-features = false, features = ["derive"] }
serde-big-array = "=0.5.1"
embassy-time = "=0.5.1"
embassy-sync = "=0.8.0"
embassy-executor = "=0.10.0"
embassy-net = { version = "=0.9.1", features = ["proto-ipv4", "medium-ethernet", "tcp", "dhcpv4"] }
embedded-hal-bus = "=0.3.0"
esp-hal = "=1.1.2"
esp-hal-smartled = "=0.16.0"
esp-println = "=0.18.0"
esp-radio = "=0.18.0"
esp-rtos = "=0.3.0"
esp-alloc = "=0.11.0"
esp-backtrace = "=0.20.0"
esp-bootloader-esp-idf = "=0.6.0"
picoserve = { version = "=0.20.1", features = ["embassy", "json"] }
static_cell = "=2.1.1"
log = "=0.4.35"

[dev-dependencies]
embedded-hal = "=1.0.0"
