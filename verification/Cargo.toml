[package]
name = "dsp"
version = "0.1.0"
edition = "2021"
publish = false

[dependencies]
byteorder = "1"
chrono = "0.4"
clap = "2"
concise = "*"
crossbeam-channel = "0.5"
fern = "0.6"
indexmap = "1"
itertools = "0.10"
log = "0.4"
lz4 = "1"
num_cpus = "1"
serde_json = "1"
structopt = "0.3"
