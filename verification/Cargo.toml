[package]
name = "bolivar_core"
version = "0.1.0"
edition = "2021"
publish = false

[dependencies]
unicode-bidi = "=0.3.18"
unicode-normalization = "=0.1.26"
ordered-float = "=5.5.1"
