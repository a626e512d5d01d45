[package]
name = "timetable"
version = "0.1.0"
edition = "2021"
publish = false

[dependencies]
chrono = "*"
colored = "*"
geodate = "*"
getopts = "*"
regex = "*"
reqwest = { version = "*", default-features = false, features = ["blocking"] }
transitfeed = "*"
zip = { version = "*", default-features = false, features = ["deflate"] }
