[package]
name = "aoc"
version = "0.1.0"
edition = "2021"
publish = false

[dependencies]
reqwest = { version = "=0.13.5", default-features = false, features = ["blocking", "form"] }
select = "=0.6.1"
time = "=0.3.55"
