[package]
name = "lisp_front"
version = "0.1.0"
edition = "2021"
publish = false

[dependencies]
ariadne = "0.3"
chumsky = "0.9"
memmap2 = "0.9"
