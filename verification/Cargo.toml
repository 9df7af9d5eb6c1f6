[package]
name = "crane_planner"
version = "0.1.0"
edition = "2021"
publish = false

[dependencies]
protobuf = "2"
zmq = "0.9"
