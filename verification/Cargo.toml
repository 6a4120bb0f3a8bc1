[package]
name = "bam_index"
version = "0.1.0"
edition = "2021"
publish = false

[dependencies]
anyhow = "*"
lambda_http = "*"
noodles-bam = { version = "*", features = ["async"] }
noodles-bgzf = { version = "*", features = ["async"] }
noodles-core = "*"
noodles-sam = "*"
object_store = { version = "*", features = ["http"] }
tokio = { version = "*", features = ["macros", "rt-multi-thread", "io-util"] }
tokio-util = { version = "*", features = ["io"] }
tracing = "*"
tracing-subscriber = "*"
url = "*"
