[package]
name = "tom_syntax"
version = "0.1.0"
edition = "2021"
publish = false

[dependencies]
rowan = "0.10"
drop_bomb = "0.1.5"
