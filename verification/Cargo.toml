[package]
name = "nemo"
version = "0.1.0"
edition = "2021"
publish = false

[dependencies]
rio_api = "=0.8.6"
rio_turtle = "=0.8.6"
rio_xml = "=0.8.6"
oxiri = "=0.2.11"
csv = "=1.4.0"
