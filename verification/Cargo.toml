[package]
name = "zana"
version = "0.1.0"
edition = "2021"
publish = false

[dependencies]
lz4_flex = "*"
h3o = "*"
d3_geo_rs = "*"
geo = "*"
geo-types = "*"
tiny-skia = "*"
tiny_http = "*"
serde = "1"
serde_json = "1"
anyhow = "1"
itertools = "*"
log = "*"
env_logger = "*"
osmpbfreader = "*"
clickhouse = "*"
tokio = { version = "1", features = ["rt-multi-thread"] }

[dev-dependencies]
bincode = "1"
delta-encoding = "*"
