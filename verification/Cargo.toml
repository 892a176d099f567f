[package]
name = "location2gpx"
version = "0.1.0"
edition = "2021"
publish = false

[dependencies]
argopt = "0.3"
bson = { version = "2", features = ["time-0_3"] }
csv = "1"
dirs = "5"
geo = "0.28"
gpx = "0.10"
mongodb = { version = "2", features = ["tokio-sync"] }
serde = { version = "1", features = ["derive"] }
serde_yaml = "0.9"
time = { version = "0.3", features = ["formatting", "parsing", "macros"] }
