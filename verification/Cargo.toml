[package]
name = "qhyper"
version = "0.1.0"
edition = "2021"
publish = false

[dependencies]
aarch64-cpu = "=10.0.0"
arrayvec = { version = "=0.7.8", default-features = false }
buddy_system_allocator = "=0.13.0"
fdt-parser = "=0.5.1"
log = "=0.4.34"
memory_addr = "=0.4.1"
numeric-enum-macro = "=0.2.0"
page-table-arm = "=0.1.1"
page_table_entry = "=0.6.2"
page-table-generic = "0.2"
spin = "=0.10.1"
