[package]
name = "audio_frame_parser"
version = "0.1.0"
edition = "2021"
publish = false

[dependencies]
argh = "*"
byteorder_slice = "*"
chrono = "*"
ctrlc = "*"
hound = "*"
once_cell = "*"
serde = { version = "*", features = ["derive"] }
serde_json = "*"
serialport = "*"
