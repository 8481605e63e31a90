[package]
name = "buoy_series"
version = "0.1.0"
edition = "2021"
publish = false

[dependencies]
bson = "*"
csv = "*"
rgb = "*"
textplots = "*"
