[package]
name = "argon"
version = "0.1.0"
edition = "2021"
publish = false

[dependencies]
actix-web = "4"
anyhow = "1"
crossbeam-channel = "0.5"
ctrlc = "3"
directories = "5"
log = "0.4"
profiling = "1"
rbx_binary = "0.7"
rbx_dom_weak = "2"
rbx_reflection = "4"
rbx_reflection_database = "0.2"
rbx_xml = "0.13"
serde = { version = "1", features = ["derive"] }
serde_json = "1"
whoami = "1"
