[package]
name = "git_hierarchy"
version = "0.1.0"
edition = "2021"
publish = false

[dependencies]
git2 = { version = "*", default-features = false }
anyhow = "*"
thiserror = "*"
clap = { version = "*", features = ["derive"] }
clap-verbosity-flag = "*"
colored = "*"
tracing = "*"
tracing-subscriber = { version = "*", features = ["env-filter"] }
petgraph = "*"
