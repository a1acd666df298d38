[package]
name = "snark_testcs"
version = "0.1.0"
edition = "2021"
publish = false

[dependencies]
indexmap = "=1.9.3"
fxhash = "=0.2.1"
snarkvm-fields = "=4.12.0"
snarkvm-curves = "=4.12.0"
snarkvm-utilities = "=4.12.0"
