[package]
name = "yolo_core"
version = "0.1.0"
edition = "2021"
publish = false

[dependencies]
image = "*"
candle-onnx = "*"
candle-core = "*"
prost = "*"
serde = { version = "*", features = ["derive"] }
serde_json = "*"
base64 = "*"
parking_lot = "*"
imageproc = "*"
