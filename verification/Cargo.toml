[package]
name = "pdf_transcode"
version = "0.1.0"
edition = "2021"
publish = false

[dependencies]
lopdf = "*"
pdf-writer = "*"
