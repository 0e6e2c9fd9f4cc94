[package]
name = "docindex"
version = "0.1.0"
edition = "2021"
publish = false

[dependencies]
roaring = "0.10"
slice-group-by = "0.3"
serde = { version = "1", features = ["derive"] }
crossbeam-channel = "0.5"
rayon = "1"
log = "0.4"
grenad = "0.4"
heed = "*"
text-size = "1"
