[package]
name = "profiler"
version = "0.1.0"
edition = "2021"
publish = false

[dependencies]
tracing = "0.1"
tracing-subscriber = { version = "0.3", features = ["registry", "std"] }
serde = { version = "1", features = ["derive"] }
serde_json = "1"
perf-event = "0.4"
thread_local = "1"
libc = "0.2"
num_cpus = "1"
