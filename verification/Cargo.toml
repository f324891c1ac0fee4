[package]
name = "diecast"
version = "0.1.0"
edition = "2021"
publish = false

[dependencies]
glob = "0.3"
regex = "1"
toml = "*"
walkdir = "2"
num_cpus = "1"
docopt = "1"
serde = { version = "1", features = ["derive"] }
ansi_term = "0.12"
threadpool = "1"
typemap = "0.3"
tempdir = "0.3"
notify = "*"
futures = "0.1"
futures-cpupool = "0.1"
iron = "0.6"
staticfile = "0.5"
handlebars = "*"
hoedown = "*"
