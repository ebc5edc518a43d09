[package]
name = "st2"
version = "0.1.0"
edition = "2021"
publish = false

[dependencies]
timely = "0.10"
differential-dataflow = "0.10"
abomonation = "0.7"
tdiag-connect = "*"
