[package]
name = "spectrum_monitor"
version = "0.1.0"
edition = "2021"
publish = false

[dependencies]
axum = { version = "*", features = ["ws"] }
candle-core = "*"
candle-nn = "*"
clap = { version = "*", features = ["derive"] }
console_error_panic_hook = "*"
futures = "*"
gloo-net = "*"
gloo-timers = { version = "*", features = ["futures"] }
js-sys = "*"
leptos = { version = "*", features = ["csr"] }
prost = "*"
rand = "*"
rand_distr = "*"
rusqlite = { version = "*", features = ["bundled"] }
rustfft = "*"
serde = { version = "*", features = ["derive"] }
serde_json = "*"
tokio = { version = "*", features = ["full"] }
tract-onnx = "*"
wasm-bindgen = "*"
web-sys = { version = "*", features = ["CanvasRenderingContext2d", "Document", "DomRect", "Element", "HtmlCanvasElement", "HtmlElement", "ImageData", "KeyboardEvent", "Location", "MouseEvent", "PointerEvent", "ResizeObserver", "TextMetrics", "WheelEvent", "Window", "console"] }
