[package]
name = "dsarm"
version = "0.1.0"
edition = "2021"
publish = false

[dependencies]
unarm = "=1.9.2"
object = "=0.40.0"
