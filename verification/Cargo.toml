[package]
name = "fraktivitaeten"
version = "0.1.0"
edition = "2021"
publish = false

[dependencies]
chrono = "0.4"
good_lp = "*"
rand = "*"
rand_distr = "*"
uuid = "1"
