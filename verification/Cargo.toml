[package]
name = "sokoban"
version = "0.1.0"
edition = "2021"
publish = false

[dependencies]
quick-xml = "0.22"
natord = "1.0"
serde = { version = "1", features = ["derive"] }
serde_json = "1"
serde_cbor = "0.11"
thiserror = "1"
directories = "5"
find_folder = "0.3"
lazy_static = "1"
log = "0.4"
colog = "1"
ansi_term = "0.12"
clap = "3"
glium = "0.32"
image = { version = "0.24", default-features = false, features = ["png"] }

[dev-dependencies]
quickcheck = "1"
