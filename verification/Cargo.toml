[package]
name = "borscht"
version = "0.1.0"
edition = "2021"
publish = false

[dependencies]
itertools = "*"
serde = { version = "*", features = ["derive"] }
thiserror = "*"
num = "*"
num-traits = "*"
rand = "*"
rand_distr = "*"
rand_xoshiro = "*"
nalgebra = "*"
structopt = "*"
plotters = "*"
plotters-backend = "*"
plotters-bitmap = "*"
