[package]
name = "kernova"
version = "0.1.0"
edition = "2021"
publish = false

[dependencies]
x86_64 = { version = "=0.15.5", default-features = false, features = ["instructions"] }
pc-keyboard = "=0.8.0"
spin = "=0.9.9"
lazy_static = { version = "=1.5.1", features = ["spin_no_std"] }
pic8259 = { version = "=0.11.0", default-features = false }
uart_16550 = "=0.9.0"
bootloader = { version = "=0.9.35", features = ["map_physical_memory"] }
futures-util = { version = "=0.3.34", default-features = false, features = ["alloc"] }
