[package]
name = "covid_chart"
version = "0.1.0"
edition = "2021"
publish = false

[dependencies]
chrono = "*"
num-format = "*"
csv = "*"
plotters = "*"
