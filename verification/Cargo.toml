[package]
name = "hex_factory"
version = "0.1.0"
edition = "2021"
publish = false

[dependencies]
serde = { version = "1", features = ["derive"] }
wasm-bindgen = "0.2"
web-sys = { version = "0.3", features = ["console", "Document", "Element", "Event", "EventTarget", "HtmlElement", "KeyEvent", "MouseEvent", "Node", "SvgElement", "SvgGraphicsElement", "SvgMatrix", "SvgPoint", "SvgsvgElement", "Window"] }
