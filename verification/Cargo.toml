[package]
name = "repo_status"
version = "0.1.0"
edition = "2021"
publish = false

[dependencies]
git2 = "*"
regex = "*"
ansi_term = "*"
clap = { version = "*", features = ["derive"] }
crossbeam-channel = "*"
crossbeam-utils = "*"
flexi_logger = "*"
log = "*"
num_cpus = "*"
xshell = "*"
