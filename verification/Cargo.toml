[package]
name = "mandalas"
version = "0.1.0"
edition = "2021"
publish = false

[dependencies]
arraydeque = "=0.2.3"
clap = "=2.34.0"
image = "=0.22.5"
itertools = "=0.8.2"
libc = "=0.2.191"
num_cpus = "=1.17.0"
pbr = "=1.1.1"
rand = "=0.4.6"
winapi = { version = "=0.3.9", features = ["winbase", "errhandlingapi"] }
