[package]
name = "corpus_count"
version = "0.1.1"
edition = "2021"
publish = false

[dependencies]
clap = "2"
stdinout = "*"
