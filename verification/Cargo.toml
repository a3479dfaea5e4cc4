[package]
name = "mlab_rs"
version = "0.1.0"
edition = "2021"
publish = false

[dependencies]
rand = "0.8"
rand_distr = "0.4"
ndarray = "0.16"
nalgebra = "0.33"
rustfft = "6"
num-traits = "0.2"
special = "0.11"
image = { version = "0.25", default-features = false, features = ["png"] }
imageproc = { version = "0.25", default-features = false }
