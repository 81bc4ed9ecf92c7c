[package]
name = "sort_shuffle"
version = "0.1.0"
edition = "2021"
publish = false

[dependencies]
voracious_radix_sort = "=1.2.0"
arrow = "=26.0.0"
datafusion = "=14.0.0"
chrono = "=0.4.39"
async-trait = "=0.1.92"
futures = "=0.3.34"
jni = "=0.20.0"
once_cell = "=1.21.4"
paste = "=1.0.15"
log = "=0.4.34"
bytesize = "=1.3.3"
