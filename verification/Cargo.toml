[package]
name = "calzone"
version = "0.1.0"
edition = "2021"
publish = false

[dependencies]
bvh = "=0.10.0"
convert_case = "=0.6.0"
geotiff = "*"
getrandom = "=0.2.17"
indexmap = "=2.14.2"
nalgebra = "=0.33.3"
rand = "=0.8.8"
rand_pcg = "=0.3.1"
serde = { version = "=1.0.229", features = ["derive"] }
