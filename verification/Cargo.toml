[package]
name = "haste_entities"
version = "0.1.0"
edition = "2021"
publish = false

[dependencies]
hashbrown = "0.15.5"
thiserror = "2.0.21"
