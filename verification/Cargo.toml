[package]
name = "exec_viz"
version = "0.1.0"
edition = "2021"
publish = false

[dependencies]
ahash = { version = "=0.8.12", features = ["serde"] }
axum = { version = "=0.8.9", default-features = false, features = ["http1", "json", "tokio"] }
dioxus = { version = "0.7", default-features = false, features = ["macro", "html", "signals", "hooks", "launch", "document", "web"] }
dockviewers_dioxus = "*"
futures = "=0.3.34"
gloo-net = { version = "=0.6.0", default-features = false, features = ["http", "json"] }
gloo-timers = { version = "=0.3.0", features = ["futures"] }
js-sys = "=0.3.107"
rmp-serde = "=1.3.1"
serde = { version = "=1.0.229", features = ["derive"] }
serde_json = "=1.0.154"
tokio = { version = "=1.54.1", features = ["net", "fs", "rt", "sync", "macros"] }
tower-http = { version = "=0.6.11", features = ["fs", "set-header"] }
wasm-bindgen = "=0.2.130"
web-sys = { version = "=0.3.107", features = ["Window", "Document", "Element", "HtmlElement", "DomRect", "KeyboardEvent", "Storage"] }
