[package]
name = "int_set_par"
version = "0.1.0"
edition = "2021"
publish = false

[dependencies]
bincode = "=1.3.3"
flate2 = "=1.1.10"
gmp-mpfr-sys = { version = "1.5", default-features = false, features = ["use-system-libs"] }
num-bigint = "=0.4.8"
rayon = "=1.12.0"
rug = { version = "=1.19.2", default-features = false, features = ["integer", "rand", "serde"] }
serde = { version = "=1.0.229", features = ["derive"] }
