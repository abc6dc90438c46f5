[package]
name = "fontscan"
version = "0.1.0"
edition = "2021"
publish = false

[dependencies]
ttf-parser = "=0.25.1"
jni = "=0.21.1"
log = "=0.4.34"
env_logger = "=0.11.11"
android_logger = "=0.15.1"
