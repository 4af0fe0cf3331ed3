[package]
name = "libflatterer"
version = "0.1.0"
edition = "2021"
publish = false

[dependencies]
crossbeam-channel = "=0.5.17"
csv = "=1.4.0"
itertools = "=0.12.1"
# Not used directly: `yajlish` needs the feature `lexer` of it.
lalrpop-util = { version = "=0.19.12", features = ["lexer"] }
regex = "=1.13.1"
serde = { version = "=1.0.229", features = ["derive"] }
serde_json = { version = "=1.0.154", features = ["preserve_order"] }
smallvec = "=1.16.4"
smartstring = "=1.0.1"
snafu = "=0.6.10"
xlsxwriter = "=0.3.5"
yajlish = { version = "=0.4.0", features = ["ndjson"] }
