[package]
name = "reth_accel"
version = "0.1.0"
edition = "2021"
publish = false

[dependencies]
alloy-primitives = { version = "1.5", default-features = false, features = ["std"] }
ark-bn254 = { version = "0.5", default-features = false, features = ["curve"] }
ark-ec = { version = "0.5", default-features = false }
ark-ff = { version = "0.5", default-features = false }
ark-serialize = { version = "0.5", default-features = false }
clap = { version = "4", default-features = false, features = ["std", "derive", "help"] }
eyre = "0.6"
num_cpus = "1"
op-revm = { version = "15", default-features = false, features = ["std"] }
revm = { version = "34", default-features = false, features = ["std"] }
revm-database = { version = "10", default-features = false, features = ["std"] }
thiserror = "2"
tracing = { version = "0.1", default-features = false, features = ["std"] }
