[package]
name = "evm_cfg"
version = "0.1.0"
edition = "2021"
publish = false

[dependencies]
petgraph = "=0.6.5"
hex = "=0.4.3"
ethers-core = { version = "=2.0.14", default-features = false }
ethers-providers = { version = "=2.0.14", default-features = false }
revm-interpreter = { version = "=10.0.3", default-features = false, features = ["std"] }
revm-primitives = { version = "=10.0.0", default-features = false, features = ["std"] }
serde = { version = "=1.0.229", features = ["derive"] }
serde_json = "=1.0.154"
tokio = { version = "=1.54.1", features = ["macros", "rt-multi-thread"] }
clap = { version = "=4.6.7", default-features = false, features = ["std", "derive", "help", "usage", "error-context"] }
async-trait = "=0.1.92"
dotenv = "0.15"
