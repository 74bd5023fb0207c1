[package]
name = "seedgrid"
version = "0.1.0"
edition = "2021"
publish = false

[dependencies]
nannou = "0.17"
rand = "=0.8.8"
rand_pcg = "=0.3.1"
rand_seeder = "=0.2.3"
to-binary = "=0.4.0"
