[package]
name = "klondike"
version = "0.1.0"
edition = "2021"
publish = false

[dependencies]
anyhow = "=1.0.104"
argh = "=0.1.19"
crankstart = "=0.1.2"
crankstart-sys = "=0.1.2"
euclid = { version = "=0.20.14", default-features = false, features = ["libm"] }
hashbrown = "=0.7.2"
rand = { version = "=0.7.3", default-features = false, features = ["alloc"] }
rand_pcg = "=0.2.1"
