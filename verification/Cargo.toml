[package]
name = "quartiles_solver"
version = "1.0.0"
edition = "2021"
publish = false

[dependencies]
bincode = "=1.3.3"
clap = { version = "=4.6.7", features = ["derive"] }
crossterm = "=0.27.0"
fixedstr = { version = "=0.5.11", features = ["pub-tstr"] }
log = "=0.4.34"
pfx = { version = "=0.4.1", features = ["serde"] }
ratatui = "=0.26.3"
serde = { version = "=1.0.229", features = ["derive"] }
