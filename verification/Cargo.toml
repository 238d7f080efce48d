[package]
name = "ptrace_binds"
version = "0.1.0"
edition = "2021"
publish = false

[dependencies]
nix = { version = "0.29", features = ["process", "ptrace", "signal"] }
