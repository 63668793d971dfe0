use dns_nftsetter::config::{parse_config, parse_ipv4, ConfigError, RuleSource, Ruleset};
use dns_nftsetter::trie::TrieMatch;

fn m(set_name: &str, pattern: &str) -> Option<TrieMatch> {
    Some(TrieMatch { set_name: set_name.to_string(), pattern: pattern.to_string() })
}

#[test]
fn test_parse_valid_config() {
    let config = "
        # Comment line
        192.168.0.100 / apple.com / my_set
        * / google.com / set_wild
        *! / facebook.com / set_global
    ";
    let ruleset = parse_config(config).unwrap();

    // Check Specific IP rule
    let ip_addr = parse_ipv4("192.168.0.100").unwrap();
    let ip_trie = ruleset.ip_rules.get(&ip_addr).unwrap();
    assert_eq!(
        ip_trie.match_domain("apple.com"),
        Some(TrieMatch { set_name: "my_set".to_string(), pattern: "apple.com".to_string() })
    );

    // Check Wildcard rule
    assert_eq!(
        ruleset.wildcard_rules.match_domain("google.com"),
        Some(TrieMatch { set_name: "set_wild".to_string(), pattern: "google.com".to_string() })
    );

    // Check Global rule
    assert_eq!(
        ruleset.global_rules.match_domain("facebook.com"),
        Some(TrieMatch { set_name: "set_global".to_string(), pattern: "facebook.com".to_string() })
    );
}

#[test]
fn test_parse_invalid_config() {
    assert!(parse_config("invalid_format").is_err());
    assert!(parse_config("192.168.0.999/apple.com/my_set").is_err());
    assert!(parse_config("192.168.0.100//my_set").is_err());
}

#[test]
fn config_errors_name_line_and_cause() {
    assert_eq!(parse_config("invalid_format").err(), Some(ConfigError::InvalidFormat { line: 1 }));
    assert_eq!(
        parse_config("# rules\n\n192.168.0.999/apple.com/my_set").err(),
        Some(ConfigError::InvalidSource { line: 3, source: "192.168.0.999".to_string() })
    );
    assert_eq!(parse_config("192.168.0.100//my_set").err(), Some(ConfigError::EmptyDomain { line: 1 }));
    assert_eq!(parse_config("* / apple.com /  ").err(), Some(ConfigError::EmptySetName { line: 1 }));
    assert_eq!(parse_config("a/b/c/d").err(), Some(ConfigError::InvalidFormat { line: 1 }));
    // The first bad line is reported.
    assert_eq!(
        parse_config("* / a.com / s\nbad\nx/y").err(),
        Some(ConfigError::InvalidFormat { line: 2 })
    );
}

#[test]
fn empty_and_comment_only_configs_have_no_rules() {
    let r = parse_config("").unwrap();
    assert!(r.ip_rules.is_empty());
    assert!(!r.is_domain_matched("apple.com"));
    let r = parse_config("   \n# nothing\n\t\n").unwrap();
    assert!(r.ip_rules.is_empty());
    assert_eq!(r.wildcard_rules.match_domain("apple.com"), None);
}

#[test]
fn rules_for_one_address_share_a_trie() {
    let r = parse_config("10.0.0.1/a.com/s1\n10.0.0.1/b.com/s2\n10.0.0.2/c.com/s3").unwrap();
    assert_eq!(r.ip_rules.len(), 2);
    let t = r.ip_rules.get(&0x0a00_0001).unwrap();
    assert_eq!(t.match_domain("x.a.com"), m("s1", "a.com"));
    assert_eq!(t.match_domain("b.com"), m("s2", "b.com"));
    assert_eq!(t.match_domain("c.com"), None);
    assert!(r.ip_rules.get(&0x0a00_0003).is_none());
}

#[test]
fn ipv4_parsing() {
    assert_eq!(parse_ipv4("192.168.0.100"), Some(0xC0A8_0064));
    assert_eq!(parse_ipv4("0.0.0.0"), Some(0));
    assert_eq!(parse_ipv4("255.255.255.255"), Some(u32::MAX));
    assert_eq!(parse_ipv4("256.0.0.1"), None);
    assert_eq!(parse_ipv4("1.2.3"), None);
    assert_eq!(parse_ipv4("1.2.3.4.5"), None);
    assert_eq!(parse_ipv4("1..3.4"), None);
    assert_eq!(parse_ipv4("a.b.c.d"), None);
    assert_eq!(parse_ipv4(""), None);
    assert_eq!(parse_ipv4("01.2.3.4"), None);
    assert_eq!(parse_ipv4("10.0.0.1"), Some(0x0A00_0001));
}

#[test]
fn ruleset_matching_over_all_sources() {
    let mut r = Ruleset::new();
    assert!(!r.is_domain_matched("a.com"));
    r.insert(RuleSource::Ip(7), "a.com", "s".to_string());
    assert!(r.is_domain_matched("www.a.com"));
    assert!(!r.is_domain_matched("b.com"));
    r.insert(RuleSource::Global, "b.com", "g".to_string());
    assert!(r.is_domain_matched("b.com"));
    r.insert(RuleSource::Wildcard, "c.com", "w".to_string());
    assert!(r.is_domain_matched("x.c.com"));
    assert!(!r.is_domain_matched("d.com"));
    assert_eq!(r.ip_rules.get(&7).unwrap().match_domain("a.com"), m("s", "a.com"));
}

#[test]
fn every_rule_of_an_accepted_config_is_in_force() {
    let r = parse_config("* / a.com / first\n*! / b.com / g\n10.0.0.1 / c.com / p\n* / a.com / second\n").unwrap();
    for d in ["a.com", "www.a.com", "b.com", "c.com"] {
        assert!(r.is_domain_matched(d), "{} should match", d);
    }
    assert!(!r.is_domain_matched("d.com"));
    // A later rule for the same domain and source takes its place.
    assert_eq!(r.wildcard_rules.match_domain("a.com"), m("second", "a.com"));
}

#[test]
fn windows_line_endings_are_accepted() {
    let r = parse_config("* / a.com / s\r\n# note\r\n*! / b.com / g\r\n").unwrap();
    assert_eq!(r.wildcard_rules.match_domain("a.com"), m("s", "a.com"));
    assert_eq!(r.global_rules.match_domain("b.com"), m("g", "b.com"));
}
