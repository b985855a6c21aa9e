[package]
name = "ini_doc"
version = "0.1.0"
edition = "2021"
publish = false

[dependencies]
read_lines_with_blank = "*"
