[package]
name = "alphazero_mcts"
version = "0.1.0"
edition = "2021"
publish = false

[dependencies]
rand = "=0.8.8"
rv = "=0.18.1"
threadpool = "=1.8.1"
tch = "=0.26.0"
