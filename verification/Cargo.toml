[package]
name = "code_editor"
version = "0.1.0"
edition = "2021"
publish = false

[dependencies]
url = "=2.5.8"
lsp-types = "=0.95.1"
serde = { version = "=1.0.229", features = ["derive"] }
serde_json = "=1.0.154"
walkdir = "=2.5.0"
git2 = { version = "=0.18.3", default-features = false }
portable-pty = "=0.8.1"
egui = { version = "=0.27.2", default-features = false, features = ["default_fonts"] }
