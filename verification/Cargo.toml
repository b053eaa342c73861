[package]
name = "linkset"
version = "0.1.0"
edition = "2021"
publish = false

[dependencies]
indexmap = "=2.14.2"
sophia_iri = { version = "=0.10.0", features = ["uri"] }
sophia_bcp47 = "=0.10.0"
serde_json = "=1.0.154"
thiserror = "=2.0.21"
