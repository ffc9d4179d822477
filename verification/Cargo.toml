[package]
name = "puppy"
version = "0.1.0"
edition = "2021"
publish = false

[dependencies]
num-bigint = "=0.4.8"
lasso = "=0.7.3"
codespan-reporting = "=0.13.1"
ptree = "=0.5.2"
clap = { version = "=4.6.7", features = ["derive"] }
camino = "=1.2.6"
