[package]
name = "flat_bvh"
version = "0.1.0"
edition = "2021"
publish = false

[dependencies]
archery = "0.4"
bytemuck = { version = "1", features = ["derive"] }
pretty_env_logger = "0.4"
screen-13 = "0.3.2"
tobj = "3.2"
