[package]
name = "triples_to_geoparquet"
version = "0.1.0"
edition = "2021"
publish = false

[dependencies]
wkt = "=0.14.0"
geo-types = "=0.7.20"
arrow-array = "=59.3.0"
arrow-schema = "=59.3.0"
geoarrow-array = "=0.9.0"
geoarrow-schema = "=0.9.0"
geoparquet = "=0.9.0"
parquet = "=59.3.0"
oxttl = "=0.2.4"
argh = "=0.1.19"
