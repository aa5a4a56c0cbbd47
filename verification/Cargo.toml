[package]
name = "dockviewers_core"
version = "0.1.0"
edition = "2021"
publish = false

[dependencies]
serde = { version = "1", features = ["derive"] }
serde_json = "1"
wasm-bindgen = "0.2"
web-sys = { version = "0.3", features = ["Window", "Storage", "Document", "Element", "NodeList", "Node", "DomRect", "HtmlElement", "EventTarget", "KeyboardEvent", "MouseEvent", "PointerEvent", "console"] }
dioxus = { version = "0.6", features = ["web"] }
leptos = { version = "0.8", features = ["csr"] }
