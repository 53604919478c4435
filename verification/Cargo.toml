[package]
name = "tuners"
version = "0.1.0"
edition = "2021"
publish = false

[dependencies]
rtrb = "*"
clap = { version = "4", features = ["derive"] }
cpal = "*"
eframe = { version = "*", default-features = false, features = ["default_fonts", "glow", "x11"] }
egui = "*"
wasm-bindgen = "*"
wasm-bindgen-futures = "*"
js-sys = "*"
console_error_panic_hook = "*"
web-sys = { version = "*", features = ["AudioContext", "AudioWorklet", "AudioWorkletNode", "AudioNode", "BaseAudioContext", "Worklet", "MediaStream", "MediaStreamConstraints", "MediaDevices", "MediaStreamAudioSourceNode", "Navigator", "Window", "Document", "Element", "HtmlCanvasElement", "MessageEvent", "MessagePort", "console"] }
