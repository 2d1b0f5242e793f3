[package]
name = "simplelinux"
version = "0.1.0"
edition = "2021"
publish = false

[dependencies]
bootloader_api = "0.11"
linked_list_allocator = { version = "0.10", default-features = false }
pc-keyboard = "0.7"
pic8259 = { version = "0.11", default-features = false, features = ["stable"] }
spin = { version = "0.9", default-features = false, features = ["mutex", "spin_mutex", "lazy", "once"] }
uart_16550 = { version = "0.3", default-features = false, features = ["stable"] }
x86_64 = { version = "0.15", default-features = false, features = ["instructions"] }
