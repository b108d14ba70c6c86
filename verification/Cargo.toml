[package]
name = "kwik"
version = "0.1.0"
edition = "2021"
publish = false

[dependencies]
sha2 = "=0.10.9"
md-5 = "=0.10.6"
rand = "=0.9.5"
rayon = "=1.12.0"
sysinfo = "=0.33.1"
linreg = "=0.2.0"
gnuplot = "=0.0.46"
num-format = "=0.4.4"
csv = "=1.4.0"
indexmap = "=2.14.2"
num-traits = "=0.2.19"
statrs = "=0.19.1"
