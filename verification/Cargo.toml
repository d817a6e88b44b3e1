[package]
name = "fatpdf"
version = "0.1.0"
edition = "2021"
publish = false

[dependencies]
hyper = { version = "0.14", features = ["client", "http1", "http2", "tcp"] }
hyper-tls = "0.5"
mupdf = "*"
tokio = { version = "1", features = ["fs", "macros", "rt", "time"] }
