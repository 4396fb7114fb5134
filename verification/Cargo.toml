[package]
name = "mbtransient"
version = "0.1.0"
edition = "2021"
publish = false

[dependencies]
egui = "=0.34.3"
nih_plug_core = "=0.1.2"
nih_plug_egui = "=0.1.2"
objc = "=0.2.7"
realfft = "=3.5.1"
