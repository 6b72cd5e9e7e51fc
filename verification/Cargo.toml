[package]
name = "vec_ecs"
version = "0.1.0"
edition = "2021"
publish = false

[dependencies]
fixedbitset = "0.5"
heck = "*"
proc-macro2 = "1"
quote = "1"
syn = "2"
