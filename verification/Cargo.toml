[package]
name = "tree_editor"
version = "0.1.0"
edition = "2021"
publish = false

[dependencies]
bstr = "1"
gix-features = { version = "0.38", features = ["rustsha1"] }
gix-hash = "0.14"
gix-hashtable = "0.5"
