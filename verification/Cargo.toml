[package]
name = "chord_midi"
version = "0.1.0"
edition = "2021"
publish = false

[dependencies]
midi_file = "*"
symbolic_expressions = "*"
clap = { version = "*", features = ["derive"] }
