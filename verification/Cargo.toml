[package]
name = "nearest"
version = "0.1.0"
edition = "2021"

[dependencies]
godot = "*"
kdtree = "*"
num-traits = "0.2"
regex-automata = "0.4"
