[package]
name = "backup_inventory"
version = "0.1.0"
edition = "2021"
publish = false

[dependencies]
abscissa_core = { version = "*", default-features = false, features = ["application"] }
anyhow = "1"
clap = { version = "4", features = ["derive"] }
rustic_core = { version = "*", features = ["clap"] }
serde = { version = "1", features = ["derive"] }
serde_json = "1"
