[package]
name = "chess_mcts"
version = "0.1.0"
edition = "2021"
publish = false

[dependencies]
pleco = "0.5"
rand = "0.8"
text_io = "0.1"
