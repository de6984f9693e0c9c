[package]
name = "wishbone_tool"
version = "0.1.0"
edition = "2021"
publish = false

[dependencies]
clap = "2"
log = "0.4"
flexi_logger = "0.17"
