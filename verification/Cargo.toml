[package]
name = "drop_listing"
version = "0.1.0"
edition = "2021"
publish = false

[dependencies]
futures-util = "0.3"
js-sys = "0.3"
wasm-bindgen = "0.2"
wasm-bindgen-futures = "0.4"
web-sys = { version = "0.3", features = ["DataTransfer", "DataTransferItem", "DataTransferItemList", "Document", "DragEvent", "Element", "Event", "EventTarget", "File", "Node", "Text", "Window"] }
