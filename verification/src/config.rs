//! Rule configuration: one rule per line, `<source> / <domain> / <set>`,
//! where the source is a client IPv4 address, `*` (any client, address
//! pairs) or `*!` (any client, single addresses).

use vstd::prelude::*;
use std::collections::HashMap;
use vstd::std_specs::iter::IteratorSpec;
use crate::text::{split_on, split_str, str_chars, str_views, trim, trim_str};
use crate::trie::{
    domain_key, lemma_match_after_insert, lemma_match_is_longest_suffix, suffix_match, LabelPath, TrieNode,
};

verus! {

// ---------------------------------------------------------------------------
// IPv4 addresses in dotted-decimal form

/// An ASCII decimal digit.
pub open spec fn is_digit(c: char) -> bool {
    48 <= (c as u32) <= 57
}

/// The value of a string of decimal digits.
pub open spec fn digits_value(s: Seq<char>) -> nat
    decreases s.len(),
{
    if s.len() == 0 {
        0
    } else {
        digits_value(s.drop_last()) * 10 + ((s.last() as u32) - 48) as nat
    }
}

/// A decimal octet as `Ipv4Addr`'s parser reads it: one to three digits,
/// no leading zero unless it is `0` itself, and a value of at most 255.
pub open spec fn octet_of(s: Seq<char>) -> Option<u8> {
    if 1 <= s.len() <= 3 && (forall|i: int| 0 <= i < s.len() ==> #[trigger] is_digit(s[i])) && !(
    s.len() > 1 && s[0] == '0') && digits_value(s) <= 255 {
        Some(digits_value(s) as u8)
    } else {
        None
    }
}

/// The address written `a.b.c.d` (four octets), as a `u32` whose most
/// significant byte is `a`.
pub open spec fn ipv4_of(s: Seq<char>) -> Option<u32> {
    let p = split_on(s, '.');
    if p.len() == 4 && octet_of(p[0]) is Some && octet_of(p[1]) is Some && octet_of(p[2]) is Some
        && octet_of(p[3]) is Some {
        Some(
            (octet_of(p[0]).unwrap() * 16777216 + octet_of(p[1]).unwrap() * 65536 + octet_of(
                p[2],
            ).unwrap() * 256 + octet_of(p[3]).unwrap()) as u32,
        )
    } else {
        None
    }
}

/// Reads one decimal octet (see `octet_of`).
fn parse_octet(s: &str) -> (r: Option<u8>)
    ensures
        r == octet_of(s@),
{
    let cs = str_chars(s);
    let n = cs.len();
    if n < 1 || n > 3 {
        return None;
    }
    if n > 1 && cs[0] == '0' {
        return None;
    }
    let mut value: u32 = 0;
    let mut i: usize = 0;
    while i < n
        invariant
            cs@ == s@,
            n == cs@.len(),
            1 <= n <= 3,
            i <= n,
            i == 0 ==> value == 0,
            forall|j: int| 0 <= j < i ==> #[trigger] is_digit(s@[j]),
            value == digits_value(s@.take(i as int)),
            i <= 1 ==> value < 10,
            i <= 2 ==> value < 100,
            value < 1000,
        decreases n - i,
    {
        let c = cs[i] as u32;
        if c < 48 || c > 57 {
            proof {
                assert(!is_digit(s@[i as int]));
            }
            return None;
        }
        proof {
            assert(s@.take(i + 1).drop_last() =~= s@.take(i as int));
            assert(s@.take(i + 1).last() == s@[i as int]);
            assert(value * 10 + (c - 48) < 1000 && (value < 10 ==> value * 10 + (c - 48) < 100) && (
            value < 1 ==> value * 10 + (c - 48) < 10)) by (nonlinear_arith)
                requires
                    value < 100,
                    c - 48 <= 9,
            ;
        }
        value = value * 10 + (c - 48);
        i += 1;
    }
    proof {
        assert(s@.take(n as int) =~= s@);
    }
    if value > 255 {
        return None;
    }
    Some(value as u8)
}

/// Parses a dotted-decimal IPv4 address (the syntax `Ipv4Addr`'s `FromStr`
/// accepts) into its `u32` value.
pub fn parse_ipv4(s: &str) -> (r: Option<u32>)
    ensures
        r == ipv4_of(s@),
{
    let parts = split_str(s, '.');
    if parts.len() != 4 {
        return None;
    }
    proof {
        assert(str_views(parts@)[0] == parts@[0]@);
        assert(str_views(parts@)[1] == parts@[1]@);
        assert(str_views(parts@)[2] == parts@[2]@);
        assert(str_views(parts@)[3] == parts@[3]@);
    }
    let a = match parse_octet(parts[0]) {
        Some(v) => v,
        None => return None,
    };
    let b = match parse_octet(parts[1]) {
        Some(v) => v,
        None => return None,
    };
    let c = match parse_octet(parts[2]) {
        Some(v) => v,
        None => return None,
    };
    let d = match parse_octet(parts[3]) {
        Some(v) => v,
        None => return None,
    };
    Some((a as u32) * 16777216 + (b as u32) * 65536 + (c as u32) * 256 + (d as u32))
}


// ---------------------------------------------------------------------------
// Rule sets

/// Which clients a rule applies to.
#[derive(Debug, Clone, Copy, PartialEq, Eq)]
pub enum RuleSource {
    /// Only the client with this IPv4 address; the set receives
    /// (client, resolved address) pairs.
    Ip(u32),
    /// Any client; the set receives (client, resolved address) pairs.
    Wildcard,
    /// Any client; the set receives resolved addresses alone.
    Global,
}

/// The rules of one trie.
pub type TrieView = Map<LabelPath, (Seq<char>, Seq<char>)>;

/// Rules by client address, wildcard rules, global rules.
pub type RulesetView = (Map<u32, TrieView>, TrieView, TrieView);

/// The configured rules, by source.
pub struct Ruleset {
    /// One trie per client address.
    pub ip_rules: HashMap<u32, TrieNode>,
    pub wildcard_rules: TrieNode,
    pub global_rules: TrieNode,
}

/// The per-address tries, each by its rules.
pub open spec fn ip_map(m: Map<u32, TrieNode>) -> Map<u32, TrieView> {
    m.map_values(|t: TrieNode| t@)
}

/// The rule sets after adding the rule `src / d / s`.
pub open spec fn ruleset_insert(r: RulesetView, src: RuleSource, d: Seq<char>, s: Seq<char>) -> RulesetView {
    let k = domain_key(d);
    match src {
        RuleSource::Ip(ip) => (
            r.0.insert(
                ip,
                (if r.0.contains_key(ip) {
                    r.0[ip]
                } else {
                    Map::empty()
                }).insert(k, (s, d)),
            ),
            r.1,
            r.2,
        ),
        RuleSource::Wildcard => (r.0, r.1.insert(k, (s, d)), r.2),
        RuleSource::Global => (r.0, r.1, r.2.insert(k, (s, d))),
    }
}

/// Some rule, of any source, matches domain `d`.
pub open spec fn ruleset_matches(r: RulesetView, d: Seq<char>) -> bool {
    ||| suffix_match(r.1, d) is Some
    ||| suffix_match(r.2, d) is Some
    ||| exists|ip: u32| r.0.contains_key(ip) && #[trigger] suffix_match(r.0[ip], d) is Some
}

/// A rule matches its own domain from its own rule set: after adding
/// `src / d / s`, a query for `d` gives `(s, d)` from the set of `src`,
/// and `d` counts as a configured domain.
pub proof fn lemma_added_rule_matches(r: RulesetView, src: RuleSource, d: Seq<char>, s: Seq<char>)
    ensures
        ruleset_matches(ruleset_insert(r, src, d, s), d),
        match src {
            RuleSource::Ip(ip) => suffix_match(ruleset_insert(r, src, d, s).0[ip], d) == Some((s, d)),
            RuleSource::Wildcard => suffix_match(ruleset_insert(r, src, d, s).1, d) == Some((s, d)),
            RuleSource::Global => suffix_match(ruleset_insert(r, src, d, s).2, d) == Some((s, d)),
        },
{
    let r2 = ruleset_insert(r, src, d, s);
    match src {
        RuleSource::Ip(ip) => {
            let base = if r.0.contains_key(ip) {
                r.0[ip]
            } else {
                Map::empty()
            };
            lemma_match_after_insert(base, d, (s, d));
            assert(r2.0.contains_key(ip));
            assert(suffix_match(r2.0[ip], d) is Some);
        },
        RuleSource::Wildcard => lemma_match_after_insert(r.1, d, (s, d)),
        RuleSource::Global => lemma_match_after_insert(r.2, d, (s, d)),
    }
}

impl View for Ruleset {
    type V = RulesetView;

    open spec fn view(&self) -> RulesetView {
        (ip_map(self.ip_rules@), self.wildcard_rules@, self.global_rules@)
    }
}

impl Ruleset {
    /// Every trie is well formed.
    pub open spec fn wf(&self) -> bool {
        &&& self.wildcard_rules.wf()
        &&& self.global_rules.wf()
        &&& forall|ip: u32| #[trigger] self.ip_rules@.contains_key(ip) ==> self.ip_rules@[ip].wf()
    }

    /// No rules.
    pub fn new() -> (r: Self)
        ensures
            r.wf(),
            r@.0 == Map::<u32, TrieView>::empty(),
            r@.1 == TrieView::empty(),
            r@.2 == TrieView::empty(),
    {
        let r = Ruleset { ip_rules: HashMap::new(), wildcard_rules: TrieNode::new(), global_rules: TrieNode::new() };
        assert(ip_map(r.ip_rules@) =~= Map::<u32, TrieView>::empty());
        r
    }

    /// Adds the rule `src / domain / set_name`.
    pub fn insert(&mut self, src: RuleSource, domain: &str, set_name: String)
        requires
            old(self).wf(),
        ensures
            final(self).wf(),
            final(self)@ == ruleset_insert(old(self)@, src, domain@, set_name@),
    {
        broadcast use vstd::std_specs::hash::group_hash_axioms;

        match src {
            RuleSource::Ip(ip) => {
                let ghost m0 = self.ip_rules@;
                let mut trie = match self.ip_rules.remove(&ip) {
                    Some(t) => t,
                    None => TrieNode::new(),
                };
                trie.insert(domain, set_name);
                self.ip_rules.insert(ip, trie);
                proof {
                    assert(ip_map(self.ip_rules@) =~= ip_map(m0).insert(
                        ip,
                        (if ip_map(m0).contains_key(ip) {
                            ip_map(m0)[ip]
                        } else {
                            Map::empty()
                        }).insert(domain_key(domain@), (set_name@, domain@)),
                    ));
                }
            },
            RuleSource::Wildcard => {
                self.wildcard_rules.insert(domain, set_name);
            },
            RuleSource::Global => {
                self.global_rules.insert(domain, set_name);
            },
        }
    }

    /// Whether any rule, of any source, matches `domain`.
    pub fn is_domain_matched(&self, domain: &str) -> (r: bool)
        requires
            self.wf(),
        ensures
            r == ruleset_matches(self@, domain@),
    {
        broadcast use vstd::std_specs::hash::group_hash_axioms;

        if self.wildcard_rules.match_domain(domain).is_some() {
            return true;
        }
        if self.global_rules.match_domain(domain).is_some() {
            return true;
        }
        let ghost m = self.ip_rules@;
        let ghost vs = vstd::std_specs::hash::spec_values_iter(&self.ip_rules).remaining().unref();
        proof {
            assert(vs.to_set() == m.values());
        }
        for t in it: self.ip_rules.values()
            invariant
                self.wf(),
                m == self.ip_rules@,
                vs.to_set() == m.values(),
                it.seq().unref() == vs,
                forall|j: int| 0 <= j < it.index() ==> #[trigger] suffix_match(vs[j]@, domain@) is None,
        {
            let ghost j = it.index();
            proof {
                assert(vs[j] == *t);
                assert(vs.to_set().contains(vs[j]));
            }
            assert(t.wf());
            if t.match_domain(domain).is_some() {
                proof {
                    let ip = choose|ip: u32| #[trigger] m.contains_key(ip) && m[ip] == *t;
                    assert(ip_map(m)[ip] == t@);
                }
                return true;
            }
        }
        proof {
            assert forall|ip: u32| ip_map(m).contains_key(ip) implies #[trigger] suffix_match(ip_map(m)[ip], domain@) is None by {
                assert(m.values().contains(m[ip]));
                assert(vs.to_set().contains(m[ip]));
                let j = choose|j: int| 0 <= j < vs.len() && vs[j] == m[ip];
                assert(suffix_match(vs[j]@, domain@) is None);
            }
        }
        false
    }
}

// ---------------------------------------------------------------------------
// Configuration text

/// Why a configuration was refused; `line` counts from 1.
#[derive(Debug, Clone, PartialEq, Eq)]
pub enum ConfigError {
    /// The line does not have exactly three `/`-separated fields.
    InvalidFormat { line: usize },
    /// The domain field is empty.
    EmptyDomain { line: usize },
    /// The set name field is empty.
    EmptySetName { line: usize },
    /// The source is neither `*`, `*!` nor an IPv4 address.
    InvalidSource { line: usize, source: String },
}

/// A configuration error with its source field as characters.
pub enum ConfigErrorView {
    InvalidFormat(nat),
    EmptyDomain(nat),
    EmptySetName(nat),
    InvalidSource(nat, Seq<char>),
}

impl View for ConfigError {
    type V = ConfigErrorView;

    open spec fn view(&self) -> ConfigErrorView {
        match self {
            ConfigError::InvalidFormat { line } => ConfigErrorView::InvalidFormat(*line as nat),
            ConfigError::EmptyDomain { line } => ConfigErrorView::EmptyDomain(*line as nat),
            ConfigError::EmptySetName { line } => ConfigErrorView::EmptySetName(*line as nat),
            ConfigError::InvalidSource { line, source } => ConfigErrorView::InvalidSource(
                *line as nat,
                source@,
            ),
        }
    }
}

/// What one configuration line says.
pub enum LineOutcome {
    /// A blank line or a comment.
    Skip,
    /// The rule (source, domain, set name).
    Rule(RuleSource, Seq<char>, Seq<char>),
    /// A malformed line.
    Fail(ConfigErrorView),
}

/// The source field: `*!`, `*` or an IPv4 address.
pub open spec fn source_of(src: Seq<char>) -> Option<RuleSource> {
    if src == seq!['*', '!'] {
        Some(RuleSource::Global)
    } else if src == seq!['*'] {
        Some(RuleSource::Wildcard)
    } else {
        match ipv4_of(src) {
            Some(ip) => Some(RuleSource::Ip(ip)),
            None => None,
        }
    }
}

/// Reading line number `num`: blank lines and lines starting with `#`
/// (after trimming) are skipped; otherwise the line must have three
/// `/`-separated fields, each trimmed, with a non-empty domain, a non-empty
/// set name and a valid source, checked in that order.
pub open spec fn parse_line_spec(line: Seq<char>, num: nat) -> LineOutcome {
    let t = trim(line);
    if t.len() == 0 || t[0] == '#' {
        LineOutcome::Skip
    } else {
        let parts = split_on(t, '/');
        if parts.len() != 3 {
            LineOutcome::Fail(ConfigErrorView::InvalidFormat(num))
        } else {
            let src = trim(parts[0]);
            let d = trim(parts[1]);
            let s = trim(parts[2]);
            if d.len() == 0 {
                LineOutcome::Fail(ConfigErrorView::EmptyDomain(num))
            } else if s.len() == 0 {
                LineOutcome::Fail(ConfigErrorView::EmptySetName(num))
            } else {
                match source_of(src) {
                    Some(so) => LineOutcome::Rule(so, d, s),
                    None => LineOutcome::Fail(ConfigErrorView::InvalidSource(num, src)),
                }
            }
        }
    }
}

/// The rules of the first `n` lines, or the error of the first bad one.
pub open spec fn config_lines(lines: Seq<Seq<char>>, n: nat) -> Result<RulesetView, ConfigErrorView>
    decreases n,
{
    if n == 0 {
        Ok((Map::empty(), Map::empty(), Map::empty()))
    } else {
        match config_lines(lines, (n - 1) as nat) {
            Err(e) => Err(e),
            Ok(r) => match parse_line_spec(lines[n - 1], n) {
                LineOutcome::Skip => Ok(r),
                LineOutcome::Rule(src, d, s) => Ok(ruleset_insert(r, src, d, s)),
                LineOutcome::Fail(e) => Err(e),
            },
        }
    }
}

/// The rules of a configuration text, or the error of its first bad line.
/// Lines are separated by `\n`; since each line is trimmed, a `\r` before
/// the `\n` and a final empty line make no difference.
pub open spec fn config_of(content: Seq<char>) -> Result<RulesetView, ConfigErrorView> {
    config_lines(split_on(content, '\n'), split_on(content, '\n').len())
}

proof fn lemma_config_error_stays(lines: Seq<Seq<char>>, k: nat, n: nat)
    requires
        k <= n,
        config_lines(lines, k) is Err,
    ensures
        config_lines(lines, n) == config_lines(lines, k),
    decreases n,
{
    if n > k {
        lemma_config_error_stays(lines, k, (n - 1) as nat);
    }
}

/// A trie that matches `d` still matches it after any rule is added.
proof fn lemma_trie_match_kept(m: TrieView, d: Seq<char>, k: LabelPath, v: (Seq<char>, Seq<char>))
    requires
        suffix_match(m, d) is Some,
    ensures
        suffix_match(m.insert(k, v), d) is Some,
{
    lemma_match_is_longest_suffix(m, d);
    lemma_match_is_longest_suffix(m.insert(k, v), d);
    let j = choose|j: int| 0 <= j <= domain_key(d).len() && m.contains_key(#[trigger] domain_key(d).take(j));
    assert(m.insert(k, v).contains_key(domain_key(d).take(j)));
}

/// Adding a rule never makes a matched domain unmatched.
proof fn lemma_matches_kept(r: RulesetView, src: RuleSource, d2: Seq<char>, s2: Seq<char>, d: Seq<char>)
    requires
        ruleset_matches(r, d),
    ensures
        ruleset_matches(ruleset_insert(r, src, d2, s2), d),
{
    let k = domain_key(d2);
    let r2 = ruleset_insert(r, src, d2, s2);
    if suffix_match(r.1, d) is Some {
        if src == RuleSource::Wildcard {
            lemma_trie_match_kept(r.1, d, k, (s2, d2));
        }
    } else if suffix_match(r.2, d) is Some {
        if src == RuleSource::Global {
            lemma_trie_match_kept(r.2, d, k, (s2, d2));
        }
    } else {
        let ip = choose|ip: u32| r.0.contains_key(ip) && #[trigger] suffix_match(r.0[ip], d) is Some;
        match src {
            RuleSource::Ip(ip2) => {
                if ip2 == ip {
                    lemma_trie_match_kept(r.0[ip], d, k, (s2, d2));
                }
                assert(r2.0.contains_key(ip));
                assert(suffix_match(r2.0[ip], d) is Some);
            },
            _ => {
                assert(r2.0.contains_key(ip));
                assert(suffix_match(r2.0[ip], d) is Some);
            },
        }
    }
}

proof fn lemma_config_lines_match(lines: Seq<Seq<char>>, n: nat, i: int)
    requires
        0 <= i < n <= lines.len(),
        config_lines(lines, n) is Ok,
        parse_line_spec(lines[i], (i + 1) as nat) is Rule,
    ensures
        ruleset_matches(config_lines(lines, n)->Ok_0, parse_line_spec(lines[i], (i + 1) as nat)->1),
    decreases n,
{
    let d = parse_line_spec(lines[i], (i + 1) as nat)->1;
    let prev = config_lines(lines, (n - 1) as nat);
    if prev is Err {
        lemma_config_error_stays(lines, (n - 1) as nat, n);
    }
    if i == n - 1 {
        match parse_line_spec(lines[i], (i + 1) as nat) {
            LineOutcome::Rule(src, d0, s0) => lemma_added_rule_matches(prev->Ok_0, src, d0, s0),
            _ => {},
        }
    } else {
        lemma_config_lines_match(lines, (n - 1) as nat, i);
        match parse_line_spec(lines[n - 1], n) {
            LineOutcome::Rule(src, d2, s2) => lemma_matches_kept(prev->Ok_0, src, d2, s2, d),
            _ => {},
        }
    }
}

/// Every rule of an accepted configuration is in force: the domain of each
/// rule line counts as configured in the resulting rules, whatever lines
/// follow it.
pub proof fn lemma_config_rules_match(content: Seq<char>, i: int)
    requires
        config_of(content) is Ok,
        0 <= i < split_on(content, '\n').len(),
        parse_line_spec(split_on(content, '\n')[i], (i + 1) as nat) is Rule,
    ensures
        ruleset_matches(
            config_of(content)->Ok_0,
            parse_line_spec(split_on(content, '\n')[i], (i + 1) as nat)->1,
        ),
{
    let lines = split_on(content, '\n');
    lemma_config_lines_match(lines, lines.len(), i);
}

/// A line, read.
enum ParsedLine<'a> {
    Skip,
    Rule(RuleSource, &'a str, &'a str),
    Fail(ConfigError),
}

/// Reads the source field (see `source_of`).
fn parse_source(src: &str) -> (r: Option<RuleSource>)
    ensures
        r == source_of(src@),
{
    let cs = str_chars(src);
    if cs.len() == 2 && cs[0] == '*' && cs[1] == '!' {
        assert(src@ =~= seq!['*', '!']);
        return Some(RuleSource::Global);
    }
    if cs.len() == 1 && cs[0] == '*' {
        assert(src@ =~= seq!['*']);
        return Some(RuleSource::Wildcard);
    }
    assert(src@ != seq!['*', '!']) by {
        if src@ == seq!['*', '!'] {
            assert(cs@[0] == '*' && cs@[1] == '!');
        }
    }
    assert(src@ != seq!['*']) by {
        if src@ == seq!['*'] {
            assert(cs@[0] == '*');
        }
    }
    match parse_ipv4(src) {
        Some(ip) => Some(RuleSource::Ip(ip)),
        None => None,
    }
}

/// Reads configuration line number `num` (see `parse_line_spec`).
fn parse_line<'a>(line: &'a str, num: usize) -> (r: ParsedLine<'a>)
    ensures
        match r {
            ParsedLine::Skip => parse_line_spec(line@, num as nat) is Skip,
            ParsedLine::Rule(src, d, s) => parse_line_spec(line@, num as nat) == LineOutcome::Rule(
                src,
                d@,
                s@,
            ),
            ParsedLine::Fail(e) => parse_line_spec(line@, num as nat) == LineOutcome::Fail(e@),
        },
{
    let trimmed = trim_str(line);
    if trimmed.unicode_len() == 0 {
        return ParsedLine::Skip;
    }
    if trimmed.get_char(0) == '#' {
        return ParsedLine::Skip;
    }
    let parts = split_str(trimmed, '/');
    if parts.len() != 3 {
        return ParsedLine::Fail(ConfigError::InvalidFormat { line: num });
    }
    proof {
        assert(str_views(parts@)[0] == parts@[0]@);
        assert(str_views(parts@)[1] == parts@[1]@);
        assert(str_views(parts@)[2] == parts@[2]@);
    }
    let src_str = trim_str(parts[0]);
    let domain = trim_str(parts[1]);
    let set_name = trim_str(parts[2]);
    if domain.unicode_len() == 0 {
        return ParsedLine::Fail(ConfigError::EmptyDomain { line: num });
    }
    if set_name.unicode_len() == 0 {
        return ParsedLine::Fail(ConfigError::EmptySetName { line: num });
    }
    match parse_source(src_str) {
        Some(src) => ParsedLine::Rule(src, domain, set_name),
        None => ParsedLine::Fail(ConfigError::InvalidSource { line: num, source: src_str.to_owned() }),
    }
}

/// Reads a rule configuration: one rule `<source> / <domain> / <set>` per
/// line, blank lines and `#` comments ignored. Fails on the first malformed
/// line.
pub fn parse_config(content: &str) -> (r: Result<Ruleset, ConfigError>)
    ensures
        match r {
            Ok(rs) => rs.wf() && config_of(content@) == Ok::<RulesetView, ConfigErrorView>(rs@),
            Err(e) => config_of(content@) == Err::<RulesetView, ConfigErrorView>(e@),
        },
{
    let lines = split_str(content, '\n');
    let ghost lv = str_views(lines@);
    let mut ruleset = Ruleset::new();
    let mut idx: usize = 0;
    proof {
        assert(ruleset@ == (Map::<u32, TrieView>::empty(), TrieView::empty(), TrieView::empty()));
    }
    while idx < lines.len()
        invariant
            lv == str_views(lines@),
            lv == split_on(content@, '\n'),
            idx <= lines@.len(),
            ruleset.wf(),
            config_lines(lv, idx as nat) == Ok::<RulesetView, ConfigErrorView>(ruleset@),
        decreases lines@.len() - idx,
    {
        let line = lines[idx];
        proof {
            assert(lv[idx as int] == line@);
        }
        match parse_line(line, idx + 1) {
            ParsedLine::Skip => {},
            ParsedLine::Rule(src, domain, set_name) => {
                ruleset.insert(src, domain, set_name.to_owned());
            },
            ParsedLine::Fail(e) => {
                proof {
                    lemma_config_error_stays(lv, (idx + 1) as nat, lv.len());
                }
                return Err(e);
            },
        }
        idx += 1;
    }
    Ok(ruleset)
}

} // verus!
