[package]
name = "ors"
version = "0.1.0"
edition = "2021"
publish = false

[dependencies]
anyhow = "1"
clap = { version = "4", features = ["derive"] }
colored = "2"
minijinja = "2"
nix = { version = "0.27", features = ["poll", "process", "signal", "term"] }
portable-pty = "*"
tempfile = "3"
terminal_size = "*"
termios = "0.3"
unicode-width = "*"
