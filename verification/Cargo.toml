[package]
name = "day_tradr"
version = "0.1.0"
edition = "2021"
publish = false

[dependencies]
day-part-http = "=0.6.3"
day-part-preferences = "=0.6.3"
day-piece-charts = "=0.4.2"
day-piece-settings = "=0.6.3"
serde_json = "=1.0.154"
