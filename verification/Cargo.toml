[package]
name = "hyper_revamp"
version = "0.1.0"
edition = "2021"
publish = false

[dependencies]
csscolorparser = "=0.9.0"
regex = "=1.13.1"
serde = { version = "=1.0.229", features = ["derive"] }
serde_json = "=1.0.154"
indexmap = "=2.14.2"
dirs = "=7.0.0"
tempfile = "=3.27.0"
sys-locale = "=0.3.2"
log = "=0.4.35"
env_logger = "=0.11.11"
crossbeam-channel = "=0.5.17"
clap = { version = "=4.6.7", features = ["derive"] }
egui = "=0.37.0"
alacritty_terminal = "=0.26.0"
notify = "=8.2.1"
notify-debouncer-full = "=0.7.0"
open = "=5.4.5"
slotmap = "1"
