[package]
name = "taco_pack"
version = "0.1.0"
edition = "2021"
publish = false

[dependencies]
anyhow = "=1.0.104"
log = "=0.4.35"
indexmap = "=2.14.2"
xml-rs = "=0.8.29"
relative-path = "=1.9.3"
glam = "=0.30.10"
glamour = "=0.18.0"
bvh = "=0.11.0"
