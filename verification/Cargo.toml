[package]
name = "lossless_syntax"
version = "0.1.0"
edition = "2021"
publish = false

[dependencies]
rowan = "0.15"
m_lexer = "0.0.4"
z3 = "*"
