[package]
name = "deploy_aws_s3"
version = "0.1.0"
edition = "2021"
publish = false

[dependencies]
aws-config = "=1.12.0"
aws-sdk-s3 = "=1.152.0"
aws-types = "=1.6.0"
base16ct = { version = "=0.2.0", features = ["alloc"] }
bytes = "=1.12.1"
clap = { version = "=4.6.7", features = ["derive"] }
mime_guess = "=2.0.5"
sha2 = "=0.10.9"
tokio = { version = "=1.54.1", features = ["macros", "rt-multi-thread"] }
walkdir = "=2.5.0"

[dev-dependencies]
serde_json = "=1.0.154"
