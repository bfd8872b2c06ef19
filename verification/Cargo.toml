[package]
name = "refpack"
version = "5.0.0"
edition = "2021"
publish = false

[dependencies]
byteorder = "1.5"
bitvec = "1"
binrw = "*"
onlyerror = "*"
zip = { version = "*", default-features = false, features = ["deflate"] }
ureq = { version = "*", default-features = false }
