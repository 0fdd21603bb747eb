[package]
name = "tinix"
version = "0.1.0"
edition = "2021"
publish = false

[dependencies]
x86_64 = { version = "=0.14.13", default-features = false, features = ["instructions"] }
bootloader = { version = "=0.9.35", features = ["map_physical_memory"] }
linked_list_allocator = { version = "=0.9.1", default-features = false }
spin = "=0.9.9"
lazy_static = { version = "=1.5.1", features = ["spin_no_std"] }
pc-keyboard = "=0.5.1"
bit_field = "=0.10.3"
volatile = "=0.2.7"
pic8259 = "=0.10.4"
uart_16550 = "=0.2.19"
