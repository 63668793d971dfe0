use dns_nftsetter::trie::{TrieMatch, TrieNode};

fn m(set_name: &str, pattern: &str) -> Option<TrieMatch> {
    Some(TrieMatch { set_name: set_name.to_string(), pattern: pattern.to_string() })
}

#[test]
fn test_exact_and_wildcard_matching() {
    let mut trie = TrieNode::new();
    trie.insert("apple.com", "set_apple".to_string());
    trie.insert("sub.apple.com", "set_sub_apple".to_string());
    trie.insert("google.com", "set_google".to_string());

    // Exact match
    assert_eq!(
        trie.match_domain("apple.com"),
        Some(TrieMatch { set_name: "set_apple".to_string(), pattern: "apple.com".to_string() })
    );
    assert_eq!(
        trie.match_domain("google.com"),
        Some(TrieMatch { set_name: "set_google".to_string(), pattern: "google.com".to_string() })
    );

    // Wildcard match (subdomain)
    assert_eq!(
        trie.match_domain("www.apple.com"),
        Some(TrieMatch { set_name: "set_apple".to_string(), pattern: "apple.com".to_string() })
    );
    assert_eq!(
        trie.match_domain("www.sub.apple.com"),
        Some(TrieMatch {
            set_name: "set_sub_apple".to_string(),
            pattern: "sub.apple.com".to_string()
        })
    );

    // Longest-suffix specificity match
    assert_eq!(
        trie.match_domain("sub.apple.com"),
        Some(TrieMatch {
            set_name: "set_sub_apple".to_string(),
            pattern: "sub.apple.com".to_string()
        })
    );

    // No match cases
    assert_eq!(trie.match_domain("pineapple.com"), None);
    assert_eq!(trie.match_domain("apple.com.cn"), None);
    assert_eq!(trie.match_domain("com"), None);
}

#[test]
fn empty_trie_matches_nothing() {
    let trie = TrieNode::new();
    assert_eq!(trie.match_domain("apple.com"), None);
    assert_eq!(trie.match_domain(""), None);
}

#[test]
fn labels_are_case_insensitive_and_trimmed() {
    let mut trie = TrieNode::new();
    trie.insert("Apple.COM", "set_apple".to_string());
    // The pattern is kept as written; labels compare in lower case.
    assert_eq!(trie.match_domain("www.APPLE.com"), m("set_apple", "Apple.COM"));
    assert_eq!(trie.match_domain(" apple . com "), m("set_apple", "Apple.COM"));
    // Empty labels are skipped.
    assert_eq!(trie.match_domain("apple..com."), m("set_apple", "Apple.COM"));
}

#[test]
fn later_insert_replaces_rule() {
    let mut trie = TrieNode::new();
    trie.insert("apple.com", "first".to_string());
    trie.insert("apple.com", "second".to_string());
    assert_eq!(trie.match_domain("www.apple.com"), m("second", "apple.com"));
    // Same labels written differently: the later pattern text is kept.
    trie.insert("APPLE.com", "third".to_string());
    assert_eq!(trie.match_domain("apple.com"), m("third", "APPLE.com"));
}

#[test]
fn rule_on_top_level_covers_everything_below() {
    let mut trie = TrieNode::new();
    trie.insert("com", "set_com".to_string());
    trie.insert("apple.com", "set_apple".to_string());
    assert_eq!(trie.match_domain("google.com"), m("set_com", "com"));
    assert_eq!(trie.match_domain("a.b.apple.com"), m("set_apple", "apple.com"));
    assert_eq!(trie.match_domain("apple.org"), None);
}

#[test]
fn match_duplicate_is_equal() {
    let a = TrieMatch { set_name: "s".to_string(), pattern: "p".to_string() };
    assert_eq!(a.duplicate(), a);
}

#[test]
fn unicode_whitespace_is_trimmed_from_labels() {
    let mut trie = TrieNode::new();
    trie.insert("apple.com", "set_apple".to_string());
    assert_eq!(trie.match_domain("\u{A0}www\u{3000}.apple.com\u{2009}"), m("set_apple", "apple.com"));
    // U+180E is not whitespace: the label stays as it is.
    assert_eq!(trie.match_domain("apple.com\u{180E}"), None);
}

#[test]
fn labels_can_be_given_directly() {
    let mut trie = TrieNode::new();
    let labels = vec!["apple".to_string(), "com".to_string()];
    trie.insert_labels(&labels, "set_apple".to_string(), "apple.com".to_string());
    assert_eq!(trie.match_domain("www.apple.com"), m("set_apple", "apple.com"));
    let query = vec!["www".to_string(), "apple".to_string(), "com".to_string()];
    assert_eq!(trie.match_labels(&query), m("set_apple", "apple.com"));
    // Labels are compared as given.
    let upper = vec!["APPLE".to_string(), "com".to_string()];
    assert_eq!(trie.match_labels(&upper), None);
}
