[package]
name = "splot"
version = "0.1.0"
edition = "2021"
publish = false

[dependencies]
anyhow = "=1.0.104"
async-trait = "=0.1.92"
egui = "=0.27.2"
egui_extras = { version = "=0.27.2", default-features = false }
egui_plot = "=0.27.2"
futures = "=0.3.34"
instant = { version = "=0.1.13", features = ["wasm-bindgen"] }
js-sys = "=0.3.106"
log = "=0.4.34"
once_cell = "=1.21.4"
poll-promise = { version = "=0.3.0", features = ["smol"] }
pretty_env_logger = "=0.5.0"
serde = { version = "=1.0.229", features = ["derive"] }
serialport = { version = "=4.10.1", default-features = false }
wasm-bindgen = "=0.2.129"
wasm-bindgen-futures = "=0.4.79"
web-sys = { version = "=0.3.106", features = ["FlowControlType", "Navigator", "ParityType", "ReadableStream", "ReadableStreamDefaultReader", "Serial", "SerialOptions", "SerialPort", "SerialPortInfo", "Window"] }
