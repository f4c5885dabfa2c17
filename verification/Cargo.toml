[package]
name = "hawk_graph"
version = "0.1.0"
edition = "2021"
publish = false

[dependencies]
rustc-hash = "2"
anstyle = "1"
anstream = "0.6"
anyhow = "1"
cargo_metadata = "*"
cargo-platform = "*"
clap = { version = "4", features = ["derive"] }
rustix = "*"
serde = { version = "1", features = ["derive"] }
serde_json = "1"
tempfile = "3"
toml = "*"
windows-sys = { version = "*", features = ["Win32_Foundation", "Win32_System_Pipes"] }
