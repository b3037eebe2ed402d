[package]
name = "protodec"
version = "0.1.0"
edition = "2021"
publish = false

[dependencies]
byteorder = "=1.5.0"
uuid = { version = "=1.29.0", features = ["v4", "js"] }
seed = "=0.10.0"
web-sys = { version = "=0.3.106", features = ["Blob", "DataTransfer", "DragEvent", "Event", "File", "FileList"] }
js-sys = "=0.3.106"
wasm-bindgen-futures = "=0.4.79"

[dev-dependencies]
protobuf = "=3.7.2"
