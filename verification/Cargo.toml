[package]
name = "pixdr"
version = "0.1.0"
edition = "2021"
publish = false

[dependencies]
android_logger = "0.15"
anyhow = "1"
cxx = "1"
eframe = { version = "0.34", default-features = false, features = ["default_fonts", "glow", "x11"] }
jni = "0.22"
log = "0.4"
num-complex = "0.4"
rustfft = "6"
