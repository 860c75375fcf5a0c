[package]
name = "todo_tree"
version = "0.1.0"
edition = "2021"
publish = false

[dependencies]
leptos = { version = "0.7", features = ["csr"] }
serde = { version = "1", features = ["derive"] }
serde_json = "1"
serde-wasm-bindgen = "0.6"
wasm-bindgen = "0.2"
wasm-bindgen-futures = "0.4"
js-sys = "0.3"
web-sys = { version = "0.3", features = ["Window", "Document", "Element", "Blob", "BlobPropertyBag", "Url", "HtmlAnchorElement", "HtmlInputElement", "HtmlTextAreaElement", "HtmlSelectElement", "FormData", "RequestInit", "Headers", "Request", "Response", "Event", "EventTarget", "Navigator", "ServiceWorkerContainer"] }
rexie = "0.6"
gloo-net = { version = "0.6", features = ["http"] }
console_error_panic_hook = "0.1"
