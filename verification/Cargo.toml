[package]
name = "coco_console"
version = "0.1.0"
edition = "2021"
publish = false

[dependencies]
async-trait = "0.1"
diesel = { version = "2", features = ["sqlite"] }
html-escape = "=0.2.15"
leptos = { version = "=0.8.23", default-features = false, features = ["ssr"] }
serde = { version = "1", features = ["derive"] }
serde_json = "1"
snafu = "*"
tokio = { version = "=1.54.1", features = ["sync", "rt", "time"] }
tracing = "0.1"
tree-sitter = "*"
tree-sitter-md = { version = "=0.5.3", features = ["parser"] }
url = "=2.5.8"
