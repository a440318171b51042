[package]
name = "compiler-lib"
version = "0.1.0"
edition = "2021"
publish = false

[dependencies]
intervallum = "*"
itertools = "0.8"
failure = "0.1"
memmap = "0.7"
structopt = "0.2"
termcolor = "1"
