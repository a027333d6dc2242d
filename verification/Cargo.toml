[package]
name = "libcrawl"
version = "0.1.0"
edition = "2021"
publish = false

[dependencies]
url = "*"
texting_robots = "*"
whatlang = "*"
soup = "*"
chrono = "*"
warc = "*"
config = "*"
reqwest = { version = "*", default-features = false }
tokio = { version = "*", features = ["rt-multi-thread", "time", "sync"] }
async-channel = "*"
futures = "*"
libflate = "*"
