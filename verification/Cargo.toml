[package]
name = "invariant_synthesis"
version = "0.1.0"
edition = "2021"
publish = false

[dependencies]
indexmap = "=2.14.2"
num = "=0.4.3"
stacker = "=0.1.25"
tokio = { version = "=1.54.1", features = ["rt", "rt-multi-thread", "time", "macros"] }
tracing = "=0.1.44"
z3 = "0.22"
