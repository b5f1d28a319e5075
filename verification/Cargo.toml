[package]
name = "kafka_jq"
version = "0.1.0"
edition = "2021"
publish = false

[dependencies]
base64 = "0.13"
bson = "0.14"
clap = "2"
futures = "0.1"
futures-cpupool = "0.1"
lazy_static = "1"
log = "0.4"
rdkafka = "0.17"
tokio-core = "0.1"
