[package]
name = "ingress_annotator"
version = "0.1.0"
edition = "2021"
publish = false

[dependencies]
serde_json = "=1.0.151"
kube = { version = "=3.1.0", features = ["client", "runtime"] }
k8s-openapi = { version = "=0.27.1", features = ["latest"] }
tokio = { version = "=1.53.2", features = ["macros", "rt-multi-thread"] }
futures = "=0.3.34"
anyhow = "=1.0.104"
tracing = "=0.1.44"
tracing-subscriber = "=0.3.23"
