[package]
name = "rs_pider"
version = "0.1.0"
edition = "2021"
publish = false

[dependencies]
cuckoofilter = "=0.5.0"
url = "=2.5.8"
sitemap = "=0.4.1"
robotparser = "=0.11.0"
xml-rs = "=1.0.0"
base_url = "=1.1.0"
reqwest = { version = "=0.12.28", default-features = false, features = ["blocking"] }
