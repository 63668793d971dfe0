//! A DNS-response driven nftables set updater: rule tries keyed by domain
//! suffix, a bounded CNAME cache, DNS answer processing and netlink message
//! encoding for nf_tables set elements.

pub mod netlink;
pub mod nftables;
pub mod batch;
pub mod text;
pub mod trie;
pub mod cache;
pub mod config;
pub mod dns;
