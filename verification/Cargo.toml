[package]
name = "module_resolver"
version = "0.1.0"
edition = "2021"
publish = false

[dependencies]
tokio = { version = "1", features = ["macros", "rt-multi-thread", "time"] }
tracing = "0.1"
tracing-chrome = "*"
tracing-subscriber = { version = "0.3", features = ["env-filter", "fmt", "json"] }
