[package]
name = "vesuvius"
version = "0.1.0"
edition = "2021"
publish = false

[dependencies]
anyhow = "1"
aws-config = { version = "=1.13.0", default-features = false, features = ["rt-tokio"] }
aws-credential-types = "=1.3.1"
aws-sigv4 = "=1.6.4"
aws-smithy-runtime-api = "=1.19.2"
bytes = "1"
clap = { version = "=4.6.7", features = ["derive"] }
dashmap = "=6.2.1"
directories = "6"
egui = { version = "=0.37.0", default-features = false }
env_logger = { version = "0.11", default-features = false }
futures = "0.3"
fxhash = "=0.2.1"
image = { version = "=0.25.10", default-features = false, features = ["png", "jpeg", "tiff"] }
indicatif = "=0.18.6"
libc = "0.2"
log = "0.4"
memmap = "0.7"
num_cpus = "1"
png = "=0.17.16"
quanta = "=0.12.6"
rand = "=0.8.8"
regex = "=1.13.1"
reqwest = { version = "=0.12.28", default-features = false }
serde = { version = "1", features = ["derive"] }
serde_json = "1"
sha2 = "=0.10.9"
tiff = "=0.11.3"
tokio = { version = "=1.54.1", features = ["full"] }
