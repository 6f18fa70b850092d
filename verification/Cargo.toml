[package]
name = "trace_spine"
version = "0.1.0"
edition = "2021"
publish = false

[dependencies]
timely_sort = "0.1"
