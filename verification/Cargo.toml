[package]
name = "gem"
version = "0.1.0"
edition = "2021"
publish = false

[dependencies]
cachedhash = "=0.3.0"
clap = { version = "=4.6.7", features = ["derive"] }
clilog = "=0.2.3"
compact_str = "=0.7.1"
indexmap = "=2.14.2"
netlistdb = "=0.3.1"
rand = "=0.8.8"
rand_chacha = "=0.3.1"
rayon = "=1.12.0"
regex = "=1.13.1"
serde = { version = "=1.0.229", features = ["derive"] }
serde_bare = "=0.5.0"
sverilogparse = "=0.3.3"
vcd-ng = "=0.2.0"
