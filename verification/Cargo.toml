[package]
name = "elysium"
version = "0.1.0"
edition = "2021"
publish = false

[dependencies]
drop_bomb = "0.1"
la-arena = "0.3"
logos = "0.14"
rowan = "0.15"
smartstring = "1"
