[package]
name = "rinex"
version = "0.1.0"
edition = "2021"
publish = false

[dependencies]
hifitime = "3"
map_3d = "*"
horrorshow = "*"
thiserror = "1"
