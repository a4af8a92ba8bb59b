[package]
name = "abilisk_firewall"
version = "0.1.0"
edition = "2021"
publish = false

[dependencies]
tokio = { version = "=1.53.2", features = ["full"] }
kube = { version = "=3.1.0", features = ["runtime", "client"] }
k8s-openapi = { version = "=0.27.1", features = ["latest"] }
futures = "=0.3.34"
anyhow = "=1.0.104"
tracing-subscriber = "=0.3.23"
