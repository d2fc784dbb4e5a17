[package]
name = "tracing_prism"
version = "0.1.0"
edition = "2021"
publish = false

[dependencies]
serde_json = "1"
regex = "1"
web-sys = { version = "0.3", features = ["Document", "Window", "Element", "HtmlElement", "HtmlInputElement", "HtmlTextAreaElement", "HtmlCollection", "Node", "Event", "EventTarget", "DomTokenList", "CssStyleDeclaration", "Selection", "FileList", "File", "Blob", "DomRect", "console"] }
wasm-bindgen = "0.2"
wasm-bindgen-futures = "0.4"
gloo-events = "*"
futures = "0.3"
futures-timer = { version = "3", features = ["wasm-bindgen"] }
send_wrapper = "*"
log = "0.4"
console_error_panic_hook = "0.1"
tracing-wasm = "*"
thespis = "*"
thespis_impl = "*"
async_executors = { version = "*", features = ["bindgen"] }
async_nursery = "*"
