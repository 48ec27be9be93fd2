[package]
name = "bolt"
version = "0.1.0"
edition = "2021"
publish = false

[dependencies]
aho-corasick = "=1.1.5"
regex = "=1.13.1"
unicode-normalization = "=0.1.26"
hashbrown = "=0.14.5"
dashmap = "=5.5.3"
fxhash = "=0.2.1"
smallvec = "=1.16.4"
