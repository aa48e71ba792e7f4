[package]
name = "rusts3"
version = "0.1.0"
edition = "2021"
publish = false

[dependencies]
md-5 = "0.10"
rand = "0.8"
chrono = "0.4"
httpdate = "1"
urlencoding = "2"
