[package]
name = "markdown_editor"
version = "0.1.0"
edition = "2021"
publish = false

[dependencies]
pulldown-cmark = { version = "0.12", default-features = false, features = ["html"] }
serde = { version = "1", features = ["derive"] }
serde_json = "1"
syntect = { version = "5", default-features = false, features = ["default-syntaxes", "default-themes", "regex-fancy", "parsing"] }
egui = { version = "0.29", default-features = false, features = ["default_fonts"] }
eframe = { version = "0.29", default-features = false, features = ["default_fonts", "glow", "x11"] }
egui_commonmark = { version = "0.18", default-features = false, features = ["pulldown_cmark"] }
image = { version = "0.25", default-features = false, features = ["png"] }
arboard = "3"
rfd = "0.15"
crossterm = "0.28"
