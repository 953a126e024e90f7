[package]
name = "realtime_core"
version = "0.3.2"
edition = "2021"
publish = false
