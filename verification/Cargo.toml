[package]
name = "dsweb"
version = "0.1.0"
edition = "2021"
publish = false

[dependencies]
flate2 = "1"
percent-encoding = "2"
clap = { version = "4", features = ["derive"] }
rouille = "3"
clipboard = "0.5"
enigo = "0.1"
scrap = "0.5"
tiny_http = "0.12"
ascii = "1"
wasm-bindgen = "0.2"
js-sys = "0.3"
web-sys = { version = "0.3", features = ["BinaryType", "CanvasRenderingContext2d", "Document", "Element", "Event", "EventTarget", "HtmlCanvasElement", "HtmlElement", "ImageData", "KeyboardEvent", "MessageEvent", "MouseEvent", "WebSocket", "WheelEvent", "Window"] }
