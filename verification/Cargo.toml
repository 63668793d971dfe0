[package]
name = "dns_nftsetter"
version = "0.1.0"
edition = "2021"
publish = false

[dependencies]
clap = { version = "4", features = ["derive"] }
dns-parser = "0.8"
etherparse = "0.16"
hashlink = "0.9"
libc = "0.2"
pcap = "2"
tokio = { version = "1", features = ["rt-multi-thread", "macros", "sync", "time"] }
tracing = "0.1"
tracing-subscriber = "0.3"
