[package]
name = "valve_resource_tools"
version = "0.1.0"
edition = "2021"
publish = false

[dependencies]
md5 = "=0.7.0"

[dev-dependencies]
bincode = "=1.3.3"
