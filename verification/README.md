# dns_nftsetter

A DNS-response driven nftables set updater, as a verified library and a
small program around it.

The program sniffs DNS responses, follows CNAME chains back to the domain
that was queried, matches that domain against suffix rules, and adds the
resolved IPv4 addresses (alone, or paired with the client's address) to
nftables sets over netlink.

## Layout

- `src/` — the library, verified with Verus:
  - `text.rs`: splitting, trimming, lowercasing, domain labels;
  - `trie.rs`: the rule trie and its longest-suffix match;
  - `config.rs`: IPv4 parsing, rule sets and the configuration format;
  - `cache.rs`: the bounded CNAME cache (LRU eviction, expiry, refresh);
  - `dns.rs`: packet slicing and DNS answer processing into set additions;
  - `batch.rs`: the batcher's steps, the dry-run choice, and the grouping of
    set additions into per-set batches;
  - `netlink.rs`: netlink message encoding, reply decoding, and reading
    the results of socket sends and receives (with the retry policy);
  - `nftables.rs`: the nf_tables set-element request and reply handling.
- `tests/` — tests of the library.
- `app/` — the daemon: arguments, logging, packet capture, the netlink
  socket and the tasks that connect them.
