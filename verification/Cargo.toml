[package]
name = "shell_commands"
version = "0.1.0"
edition = "2021"
publish = false

[dependencies]
anyhow = "1"
argh = "0.1"
regex = "1"
rustyline = "*"
