[package]
name = "light_maps"
version = "0.1.0"
edition = "2021"
publish = false

[dependencies]
anyhow = "=1.0.104"
axum = "=0.8.9"
brotli = "=7.0.0"
bytes = "=1.12.1"
clap = { version = "=4.6.7", features = ["derive"] }
csv = "=1.4.0"
flate2 = "=1.1.10"
geo = "=0.29.3"
geo-types = "=0.7.20"
geojson = "=0.24.2"
geozero = { version = "=0.14.0", default-features = false, features = ["with-mvt", "with-shp", "with-geojson", "with-geo", "with-wkb"] }
inquire = "=0.7.5"
memmap2 = "=0.9.12"
metrics = "=0.24.6"
metrics-exporter-prometheus = { version = "=0.16.2", default-features = false, features = ["http-listener"] }
rayon = "=1.12.0"
rusqlite = { version = "=0.32.1", features = ["bundled"] }
serde = { version = "=1.0.229", features = ["derive"] }
serde_json = "=1.0.154"
thiserror = "=2.0.21"
tokio = { version = "=1.54.1", features = ["rt-multi-thread", "macros", "net", "time"] }
tower = { version = "=0.5.3", features = ["util", "limit"] }
tower-http = { version = "=0.6.11", features = ["cors", "timeout"] }
tracing = "=0.1.44"
tracing-subscriber = { version = "=0.3.23", features = ["env-filter"] }

[dev-dependencies]
tempfile = "=3.27.0"
http-body-util = "=0.1.5"
