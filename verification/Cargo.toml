[package]
name = "dy_tasksys"
version = "0.1.0"
edition = "2021"
publish = false

[dependencies]
crossbeam-deque = "0.8"
crossbeam-utils = "0.8"
thiserror = "1"
