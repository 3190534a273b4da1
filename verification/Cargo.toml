[package]
name = "walloftext"
version = "0.1.0"
edition = "2021"
publish = false

[dependencies]
anyhow = "=1.0.104"
axum = { version = "=0.8.9", features = ["ws"] }
bitcode = "=0.6.9"
bitflagset = "=0.0.4"
bytemuck = { version = "=1.25.2", features = ["derive"] }
clap = { version = "=4.6.7", features = ["derive"] }
console_error_panic_hook = "=0.1.7"
dotenvy = "=0.15.7"
foldhash = "=0.2.0"
fontdue = "=0.9.5"
futures-util = "=0.3.34"
image = { version = "=0.25.10", default-features = false, features = ["gif", "png"] }
js-sys = "=0.3.107"
png = "=0.18.1"
rand = "=0.10.3"
ruzstd = "=0.9.1"
serde = { version = "=1.0.229", features = ["derive"] }
thiserror = "=2.0.21"
tokio = { version = "=1.54.1", features = ["full"] }
tower-http = { version = "=0.7.1", features = ["fs"] }
tracing = "=0.1.44"
tracing-subscriber = { version = "=0.3.23", features = ["env-filter"] }
tungstenite = { version = "=0.30.0", features = ["native-tls"] }
wasm-bindgen = "=0.2.130"
wasm-bindgen-futures = "=0.4.80"
web-sys = { version = "=0.3.107", features = ["AddEventListenerOptions", "BinaryType", "CloseEvent", "CssStyleDeclaration", "DedicatedWorkerGlobalScope", "Document", "DomRect", "DomStringMap", "DomTokenList", "Element", "Event", "EventTarget", "HtmlCanvasElement", "HtmlElement", "HtmlInputElement", "HtmlTextAreaElement", "History", "KeyboardEvent", "Location", "MessageEvent", "MouseEvent", "Navigator", "Clipboard", "Node", "NodeList", "Performance", "Response", "Storage", "Touch", "TouchEvent", "TouchList", "WebSocket", "WheelEvent", "Window", "Worker", "WorkerGlobalScope", "console"] }
wgpu = { version = "=30.0.1", default-features = false, features = ["webgl", "webgpu", "wgsl"] }
zstd = "=0.14.3"
