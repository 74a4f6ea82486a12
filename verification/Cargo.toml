[package]
name = "translatepmd"
version = "0.1.0"
edition = "2021"
publish = false

[dependencies]
anyhow = "1"
clap = { version = "3.1", features = ["derive"] }
pmd_code_table = "*"
pmd_farc = "*"
pmd_message = "*"
thiserror = "1"
