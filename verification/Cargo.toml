[package]
name = "worldrenderer"
version = "0.1.0"
edition = "2021"
publish = false

[dependencies]
bytemuck = { version = "=1.25.2", features = ["derive"] }
console_error_panic_hook = "=0.1.7"
console_log = "=1.1.0"
earcutr = "=0.5.0"
glam = { version = "=0.34.2", features = ["bytemuck"] }
gltf = "=1.4.1"
jpeg-decoder = { version = "=0.3.2", features = ["platform_independent"] }
js-sys = "=0.3.107"
log = "=0.4.35"
png = "=0.18.1"
wasm-bindgen = "=0.2.130"
wasm-bindgen-futures = "=0.4.80"
wgpu = { version = "=30.0.1", features = ["webgl"] }

[dependencies.web-sys]
version = "=0.3.107"
features = [
    "AbortController",
    "AbortSignal",
    "AddEventListenerOptions",
    "Cache",
    "CacheStorage",
    "DedicatedWorkerGlobalScope",
    "Document",
    "DomRect",
    "Element",
    "Event",
    "EventTarget",
    "HtmlCanvasElement",
    "HtmlElement",
    "KeyboardEvent",
    "MessageChannel",
    "MessageEvent",
    "MessagePort",
    "MouseEvent",
    "Navigator",
    "Performance",
    "PointerEvent",
    "Request",
    "RequestInit",
    "Response",
    "StorageManager",
    "UiEvent",
    "WheelEvent",
    "Window",
    "Worker",
    "WorkerGlobalScope",
    "WorkerNavigator",
    "WorkerOptions",
    "WorkerType",
]
