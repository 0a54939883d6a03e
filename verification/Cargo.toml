[package]
name = "sidekick"
version = "0.1.0"
edition = "2021"
publish = false

[dependencies]
serde = { version = "1", features = ["derive"] }
serde_json = "1"
tokio = { version = "1", features = ["sync", "time", "macros", "rt-multi-thread"] }
chrono = "0.4"
encoding_rs = "0.8"
futures-util = "0.3"
reqwest = { version = "0.12", default-features = false, features = ["stream"] }
llama-cpp-2 = "*"
whisper-rs = "*"
screencapturekit = "*"
