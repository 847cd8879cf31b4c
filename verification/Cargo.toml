[package]
name = "kafka_source"
version = "0.1.0"
edition = "2021"
publish = false

[dependencies]
itertools = "0.9"
lazy_static = "1.4"
log = "0.4"
prometheus = { version = "0.9", default-features = false }
rdkafka = { version = "0.24", default-features = false }
timely = "0.12"
