[package]
name = "magnetar_format_gguf"
version = "0.1.0"
edition = "2021"
publish = false

[dependencies]
libfuzzer-sys = "=0.4.13"
sha2 = "=0.11.1"
