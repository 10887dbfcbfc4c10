[package]
name = "cargo-depgate"
version = "0.1.0"
edition = "2021"
publish = false

[dependencies]
annotate-snippets = "*"
anstream = "*"
anstyle = "*"
cargo_metadata = "*"
cfg-expr = { version = "*", features = ["targets"] }
clap = { version = "4", features = ["derive"] }
clap-cargo = "*"
fixedbitset = "*"
globset = "*"
indexmap = { version = "2", features = ["serde"] }
rustc-hash = "2"
schemars = { version = "*", features = ["indexmap2"] }
serde = { version = "1", features = ["derive"] }
serde_json = { version = "1", features = ["raw_value"] }
thiserror = "2"
toml = { version = "*", features = ["preserve_order"] }
tracing = "*"

[dev-dependencies]
tempfile = "3"
