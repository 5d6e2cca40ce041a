[package]
name = "timetable"
version = "0.1.0"
edition = "2021"
publish = false

[dependencies]
leptos = { version = "*", features = ["csr"] }
web-sys = { version = "0.3", features = ["Window", "Location", "UrlSearchParams", "Navigator", "Clipboard", "KeyboardEvent", "MouseEvent", "HtmlElement", "Event", "EventTarget"] }
gloo-timers = { version = "0.3" }
console_log = "1"
log = "0.4"
console_error_panic_hook = "0.1"
serde = { version = "1", features = ["derive"] }
serde_json = "1"
