[package]
name = "whitenoise"
version = "0.1.0"
edition = "2021"
publish = false

[dependencies]
ieee754 = "=0.2.6"
indexmap = "=1.9.3"
num = "=0.3.1"
openssl = "=0.10.82"
probability = "=0.17.0"
rug = { version = "~1.24", default-features = false, features = ["float", "rand"] }
