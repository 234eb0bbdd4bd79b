[package]
name = "md-kb-rag"
version = "0.1.0"
edition = "2021"
publish = false

[dependencies]
pulldown-cmark = { version = "0.12", default-features = false }
text-splitter = { version = "*", features = ["markdown"] }
unicase = "2"
serde_json = "1"
rmcp = { version = "*", default-features = false }

[dev-dependencies]
gray_matter = "0.2"
