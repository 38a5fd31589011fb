[package]
name = "tusk"
version = "0.1.0"
edition = "2021"
publish = false

[dependencies]
csv = "=1.4.0"
serde_json = "=1.0.154"
imagesize = "=0.15.0"
js-sys = "=0.3.107"
wasm-bindgen = "=0.2.130"
wasm-bindgen-futures = "=0.4.80"
leptos = "=0.8.23"

[dependencies.web-sys]
version = "=0.3.107"
features = ["Window", "Document", "Element", "HtmlElement", "HtmlInputElement", "HtmlButtonElement", "HtmlSelectElement", "HtmlAnchorElement", "Blob", "BlobPropertyBag", "Url", "BeforeUnloadEvent", "Location", "Navigator", "Hid", "HidDevice", "HidInputReportEvent", "Headers", "RequestInit", "Response", "AbortSignal", "Storage", "File", "FileList", "FileReader", "Event", "Node", "EventTarget"]
