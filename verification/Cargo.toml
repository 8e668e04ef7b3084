[package]
name = "glbaby"
version = "0.1.0"
edition = "2021"
publish = false

[dependencies]
itertools = "=0.15.0"
ogl33 = "=0.2.0"
