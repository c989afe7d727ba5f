[package]
name = "query_filters"
version = "0.1.0"
edition = "2021"
publish = false

[dependencies]
bevy_ecs = { version = "0.11", default-features = false }
fixedbitset = "0.4"
