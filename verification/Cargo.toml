[package]
name = "exact"
version = "0.1.0"
edition = "2021"
publish = false

[dependencies]
fraction = "*"
lyn = "*"
num = "*"
num-traits = "*"
ordered-float = "*"
prime_factorization = "*"
