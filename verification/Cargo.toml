[package]
name = "word_frequency"
version = "0.1.0"
edition = "2021"
publish = false

[dependencies]
clap = "2"
flate2 = "1"
num_cpus = "1"
rand = "0.7"
scoped_threadpool = "0.1"
serde_json = "1"
unicode-normalization = "0.1"
