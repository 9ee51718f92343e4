[package]
name = "rusty_alto"
version = "0.1.0"
edition = "2021"
publish = false

[dependencies]
fixedbitset = "=0.5.7"
hashbrown = "=0.14.5"
rustc-hash = "=2.1.3"
smallvec = "=1.16.4"
packed-term-arena = "=0.1.3"

[dev-dependencies]
num-bigint = "=0.4.8"
