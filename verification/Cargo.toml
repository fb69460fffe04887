[package]
name = "reversi"
version = "0.1.0"
edition = "2021"
publish = false

[dependencies]
crossterm = { version = "=0.29.0", default-features = false, features = ["events"] }
futures-channel = "=0.3.34"
futures-util = { version = "=0.3.34", features = ["sink"] }
js-sys = "*"
serde = { version = "=1.0.229", features = ["derive"] }
serde_json = "=1.0.154"
tokio = { version = "=1.54.1", features = ["macros", "net", "rt-multi-thread"] }
tokio-tungstenite = "=0.30.0"
tungstenite = "=0.30.0"
wasm-bindgen = "*"
web-sys = { version = "*", features = ["CanvasRenderingContext2d", "Document", "Element", "Event", "EventTarget", "HtmlButtonElement", "HtmlCanvasElement", "HtmlDivElement", "HtmlElement", "KeyboardEvent", "MessageEvent", "MouseEvent", "Node", "WebSocket", "Window"] }
