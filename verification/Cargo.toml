[package]
name = "tui48"
version = "0.1.0"
edition = "2021"
publish = false

[dependencies]
rand = { version = "0.8", features = ["small_rng"] }
boxy = "*"
textwrap = "0.16"
palette = "0.7"
thiserror = "1"
log = "0.4"
fern = "0.6"
clap = { version = "4", features = ["derive"] }
clap-verbosity-flag = "2"
crossterm = "0.27"
anyhow = "1"
