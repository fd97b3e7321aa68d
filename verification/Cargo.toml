[package]
name = "sudoku_solver"
version = "0.2.0"
edition = "2021"
publish = false

[dependencies]
clap = "2"
itertools = "0.9"
log = "0.4"
rand = "0.7"
