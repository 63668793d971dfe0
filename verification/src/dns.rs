//! DNS answer processing: CNAME answers extend the CNAME cache when they
//! belong to a configured domain, and A answers whose (CNAME-resolved)
//! domain matches a rule become nftables set additions.

use vstd::prelude::*;
use crate::cache::{
    cache_insert, cache_resolve, clamp_ttl, expiry, lemma_follow_live, lemma_insert_keys_distinct, lemma_insert_new_key,
    lemma_resolve_after_insert, lru_has, lru_insert, lru_pos, resolve_steps, state_wf, CacheState, CnameCache,
    MAX_CNAME_DEPTH, MAX_NOW, NANOS_PER_SEC,
};
use crate::text::spec_to_lowercase;
use crate::config::{ruleset_matches, Ruleset, RulesetView};
use crate::netlink::u32_be_bytes;
use crate::trie::{suffix_match, TrieMatch};

verus! {

/// The record data of an answer, as far as it matters here.
#[derive(Debug, Clone, PartialEq, Eq)]
pub enum AnswerData {
    /// An IPv4 address (most significant byte first).
    A(u32),
    /// The canonical name the answer's name is an alias of.
    Cname(String),
    /// Any other record type.
    Other,
}

/// One resource record of a DNS answer section.
#[derive(Debug, Clone, PartialEq, Eq)]
pub struct DnsAnswer {
    pub name: String,
    /// The record class (1 is `IN`).
    pub class: u16,
    pub ttl: u32,
    pub data: AnswerData,
}

/// The record data of an answer, with names as characters.
pub enum AnswerDataView {
    A(u32),
    Cname(Seq<char>),
    Other,
}

/// An answer as (name, class, ttl, data).
pub type DnsAnswerView = (Seq<char>, u16, u32, AnswerDataView);

impl View for DnsAnswer {
    type V = DnsAnswerView;

    open spec fn view(&self) -> DnsAnswerView {
        (
            self.name@,
            self.class,
            self.ttl,
            match self.data {
                AnswerData::A(ip) => AnswerDataView::A(ip),
                AnswerData::Cname(t) => AnswerDataView::Cname(t@),
                AnswerData::Other => AnswerDataView::Other,
            },
        )
    }
}

/// The views of a sequence of answers.
pub open spec fn answers_view(v: Seq<DnsAnswer>) -> Seq<DnsAnswerView> {
    v.map_values(|a: DnsAnswer| a@)
}

/// The answer section that `dns_parser` decodes from a DNS message, or
/// `None` when it refuses the message.
pub uninterp spec fn dns_answers(payload: Seq<u8>) -> Option<Seq<DnsAnswerView>>;

/// `dns_parser::Packet::parse`, reduced to the answer records: each
/// record's name (as `dns_parser` prints it), class, TTL and, for `A` and
/// `CNAME` records, the address or the canonical name.
#[verifier::external_body]
fn decode_answers(payload: &[u8]) -> (r: Option<Vec<DnsAnswer>>)
    ensures
        match r {
            Some(v) => dns_answers(payload@) == Some(answers_view(v@)),
            None => dns_answers(payload@) is None,
        },
{
    let packet = dns_parser::Packet::parse(payload).ok()?;
    Some(packet.answers.iter().map(|rec| DnsAnswer {
        name: rec.name.to_string(),
        class: rec.cls as u16,
        ttl: rec.ttl,
        data: match &rec.data {
            dns_parser::RData::A(a) => AnswerData::A(u32::from(a.0)),
            dns_parser::RData::CNAME(c) => AnswerData::Cname(c.to_string()),
            _ => AnswerData::Other,
        },
    }).collect())
}

/// An element to add to an nftables set, with what it was made from.
#[derive(Debug, Clone)]
pub struct NftCommand {
    pub family: String,
    pub table: String,
    pub set_name: String,
    /// Four bytes (an address) for global sets, eight (client address,
    /// then resolved address) for pair sets.
    pub key: Vec<u8>,
    pub timeout_secs: u32,
    pub domain: String,
    pub rule_pattern: String,
}

/// A set addition, with strings as characters.
pub struct NftCommandView {
    pub family: Seq<char>,
    pub table: Seq<char>,
    pub set_name: Seq<char>,
    pub key: Seq<u8>,
    pub timeout_secs: u32,
    pub domain: Seq<char>,
    pub rule_pattern: Seq<char>,
}

impl View for NftCommand {
    type V = NftCommandView;

    open spec fn view(&self) -> NftCommandView {
        NftCommandView {
            family: self.family@,
            table: self.table@,
            set_name: self.set_name@,
            key: self.key@,
            timeout_secs: self.timeout_secs,
            domain: self.domain@,
            rule_pattern: self.rule_pattern@,
        }
    }
}

/// The views of a sequence of commands.
pub open spec fn commands_view(v: Seq<NftCommand>) -> Seq<NftCommandView> {
    v.map_values(|c: NftCommand| c@)
}

/// The command adding `key` to the set of rule `m`.
pub open spec fn command_for(
    family: Seq<char>,
    table: Seq<char>,
    m: (Seq<char>, Seq<char>),
    key: Seq<u8>,
    ttl: u32,
    domain: Seq<char>,
) -> NftCommandView {
    NftCommandView {
        family,
        table,
        set_name: m.0,
        key,
        timeout_secs: ttl,
        domain,
        rule_pattern: m.1,
    }
}

/// The commands for an `A` answer with address `ip`, attributed to domain
/// `original`: the client's own rule (pair key), then the wildcard rule
/// (pair key), then the global rule (address key), each when it matches.
pub open spec fn a_record_commands(
    r: RulesetView,
    client: u32,
    ip: u32,
    original: Seq<char>,
    ttl: u32,
    family: Seq<char>,
    table: Seq<char>,
) -> Seq<NftCommandView> {
    let pair = u32_be_bytes(client) + u32_be_bytes(ip);
    let specific = if r.0.contains_key(client) && suffix_match(r.0[client], original) is Some {
        seq![command_for(family, table, suffix_match(r.0[client], original).unwrap(), pair, ttl, original)]
    } else {
        seq![]
    };
    let wild = match suffix_match(r.1, original) {
        Some(m) => seq![command_for(family, table, m, pair, ttl, original)],
        None => seq![],
    };
    let global = match suffix_match(r.2, original) {
        Some(m) => seq![command_for(family, table, m, u32_be_bytes(ip), ttl, original)],
        None => seq![],
    };
    specific + wild + global
}

/// The first pass: every `IN` CNAME answer whose name resolves (through
/// the cache) to a domain some rule matches maps its target to its name.
pub open spec fn cname_pass(answers: Seq<DnsAnswerView>, r: RulesetView, c: CacheState, now: u64) -> CacheState
    decreases answers.len(),
{
    if answers.len() == 0 {
        c
    } else {
        let c1 = cname_pass(answers.drop_last(), r, c, now);
        let a = answers.last();
        if a.1 != 1 {
            c1
        } else {
            match a.3 {
                AnswerDataView::Cname(target) => {
                    let res = cache_resolve(c1, a.0, now);
                    if ruleset_matches(r, res.0) {
                        cache_insert(res.1, target, a.0, a.2, now)
                    } else {
                        res.1
                    }
                },
                _ => c1,
            }
        }
    }
}

/// The second pass: every `IN` A answer is attributed to the domain its
/// name resolves to, and gives the commands of the rules that match it
/// (a TTL of 0 becomes `default_timeout`).
pub open spec fn a_pass(
    answers: Seq<DnsAnswerView>,
    r: RulesetView,
    client: u32,
    c: CacheState,
    now: u64,
    family: Seq<char>,
    table: Seq<char>,
    default_timeout: u32,
) -> (Seq<NftCommandView>, CacheState)
    decreases answers.len(),
{
    if answers.len() == 0 {
        (seq![], c)
    } else {
        let prev = a_pass(answers.drop_last(), r, client, c, now, family, table, default_timeout);
        let a = answers.last();
        if a.1 != 1 {
            prev
        } else {
            match a.3 {
                AnswerDataView::A(ip) => {
                    let res = cache_resolve(prev.1, a.0, now);
                    let ttl = if a.2 == 0 {
                        default_timeout
                    } else {
                        a.2
                    };
                    (prev.0 + a_record_commands(r, client, ip, res.0, ttl, family, table), res.1)
                },
                _ => prev,
            }
        }
    }
}

/// The commands and the final cache state from processing `answers` at
/// time `now`.
pub open spec fn process_answers_spec(
    answers: Seq<DnsAnswerView>,
    r: RulesetView,
    client: u32,
    c: CacheState,
    now: u64,
    family: Seq<char>,
    table: Seq<char>,
    default_timeout: u32,
) -> (Seq<NftCommandView>, CacheState) {
    a_pass(answers, r, client, cname_pass(answers, r, c, now), now, family, table, default_timeout)
}


/// The four bytes of an IPv4 address, most significant first.
pub fn ipv4_octets(ip: u32) -> (r: Vec<u8>)
    ensures
        r@ == u32_be_bytes(ip),
{
    let mut v: Vec<u8> = Vec::new();
    v.push(((ip >> 24) & 0xff) as u8);
    v.push(((ip >> 16) & 0xff) as u8);
    v.push(((ip >> 8) & 0xff) as u8);
    v.push((ip & 0xff) as u8);
    assert(v@ =~= u32_be_bytes(ip));
    v
}

/// The key of a pair set: client address, then resolved address.
fn pair_key(client: u32, ip: u32) -> (r: Vec<u8>)
    ensures
        r@ == u32_be_bytes(client) + u32_be_bytes(ip),
{
    let mut key = ipv4_octets(client);
    let b = ipv4_octets(ip);
    let ghost k0 = key@;
    key.push(b[0]);
    key.push(b[1]);
    key.push(b[2]);
    key.push(b[3]);
    assert(key@ =~= k0 + b@);
    key
}

fn make_command(family: &str, table: &str, m: &TrieMatch, key: Vec<u8>, ttl: u32, domain: &String) -> (r: NftCommand)
    ensures
        r@ == command_for(family@, table@, m@, key@, ttl, domain@),
{
    NftCommand {
        family: family.to_owned(),
        table: table.to_owned(),
        set_name: m.set_name.clone(),
        key,
        timeout_secs: ttl,
        domain: domain.clone(),
        rule_pattern: m.pattern.clone(),
    }
}

/// The commands for one `A` answer (see `a_record_commands`).
fn commands_for_address(
    ruleset: &Ruleset,
    client_ip: u32,
    ip: u32,
    original: &String,
    ttl: u32,
    family: &str,
    table: &str,
) -> (r: Vec<NftCommand>)
    requires
        ruleset.wf(),
    ensures
        commands_view(r@) == a_record_commands(ruleset@, client_ip, ip, original@, ttl, family@, table@),
{
    let mut out: Vec<NftCommand> = Vec::new();
    let ghost r = ruleset@;
    let ghost pair = u32_be_bytes(client_ip) + u32_be_bytes(ip);
    let ghost mut expected: Seq<NftCommandView> = seq![];
    broadcast use vstd::std_specs::hash::group_hash_axioms;
    match ruleset.ip_rules.get(&client_ip) {
        Some(trie) => {
            proof {
                assert(ruleset.ip_rules@.contains_key(client_ip));
                assert(r.0[client_ip] == trie@);
            }
            match trie.match_domain(original.as_str()) {
                Some(m) => {
                    let c = make_command(family, table, &m, pair_key(client_ip, ip), ttl, original);
                    out.push(c);
                    proof {
                        expected = seq![c@];
                    }
                },
                None => {},
            }
        },
        None => {},
    }
    proof {
        assert(commands_view(out@) =~= expected);
    }
    match ruleset.wildcard_rules.match_domain(original.as_str()) {
        Some(m) => {
            let c = make_command(family, table, &m, pair_key(client_ip, ip), ttl, original);
            let ghost prev = out@;
            out.push(c);
            proof {
                assert(commands_view(out@) =~= commands_view(prev).push(c@));
                expected = expected.push(c@);
            }
        },
        None => {},
    }
    let ghost after_wild = expected;
    match ruleset.global_rules.match_domain(original.as_str()) {
        Some(m) => {
            let c = make_command(family, table, &m, ipv4_octets(ip), ttl, original);
            let ghost prev = out@;
            out.push(c);
            proof {
                assert(commands_view(out@) =~= commands_view(prev).push(c@));
                expected = expected.push(c@);
            }
        },
        None => {},
    }
    proof {
        let a = a_record_commands(r, client_ip, ip, original@, ttl, family@, table@);
        assert(expected =~= a);
    }
    out
}

/// Processes the answers of one DNS response from client `client_ip` at
/// time `now`: first every `IN` CNAME answer whose name leads back to a
/// configured domain is cached (target → name); then every `IN` A answer
/// is attributed to the domain its name resolves to and yields the set
/// additions of the client's, the wildcard and the global rule that match
/// that domain, in answer order.
pub fn process_dns_answers(
    client_ip: u32,
    answers: &Vec<DnsAnswer>,
    ruleset: &Ruleset,
    cname_cache: &mut CnameCache,
    family: &str,
    table: &str,
    default_timeout: u32,
    now: u64,
) -> (r: Vec<NftCommand>)
    requires
        ruleset.wf(),
        old(cname_cache).wf(),
        now <= MAX_NOW,
    ensures
        final(cname_cache).wf(),
        final(cname_cache).last_reading() == old(cname_cache).last_reading(),
        (commands_view(r@), final(cname_cache)@) == process_answers_spec(
            answers_view(answers@),
            ruleset@,
            client_ip,
            old(cname_cache)@,
            now,
            family@,
            table@,
            default_timeout,
        ),
{
    let ghost av = answers_view(answers@);
    let ghost c0 = cname_cache@;
    let mut i: usize = 0;
    while i < answers.len()
        invariant
            av == answers_view(answers@),
            ruleset.wf(),
            cname_cache.wf(),
            cname_cache.last_reading() == old(cname_cache).last_reading(),
            now <= MAX_NOW,
            i <= answers@.len(),
            cname_cache@ == cname_pass(av.take(i as int), ruleset@, c0, now),
        decreases answers@.len() - i,
    {
        let a = &answers[i];
        proof {
            assert(av.take(i + 1).drop_last() =~= av.take(i as int));
            assert(av.take(i + 1).last() == a@);
        }
        if a.class == 1 {
            match &a.data {
                AnswerData::Cname(target) => {
                    let original = cname_cache.resolve_at(a.name.as_str(), now);
                    if ruleset.is_domain_matched(original.as_str()) {
                        cname_cache.insert_at(target.clone(), a.name.clone(), a.ttl, now);
                    }
                },
                _ => {},
            }
        }
        i += 1;
    }
    proof {
        assert(av.take(answers@.len() as int) =~= av);
    }
    let ghost c1 = cname_cache@;
    let mut out: Vec<NftCommand> = Vec::new();
    let mut k: usize = 0;
    while k < answers.len()
        invariant
            av == answers_view(answers@),
            ruleset.wf(),
            cname_cache.wf(),
            cname_cache.last_reading() == old(cname_cache).last_reading(),
            now <= MAX_NOW,
            k <= answers@.len(),
            (commands_view(out@), cname_cache@) == a_pass(
                av.take(k as int),
                ruleset@,
                client_ip,
                c1,
                now,
                family@,
                table@,
                default_timeout,
            ),
        decreases answers@.len() - k,
    {
        let a = &answers[k];
        proof {
            assert(av.take(k + 1).drop_last() =~= av.take(k as int));
            assert(av.take(k + 1).last() == a@);
        }
        if a.class == 1 {
            match &a.data {
                AnswerData::A(ip) => {
                    let original = cname_cache.resolve_at(a.name.as_str(), now);
                    let ttl = if a.ttl == 0 {
                        default_timeout
                    } else {
                        a.ttl
                    };
                    let mut cmds = commands_for_address(ruleset, client_ip, *ip, &original, ttl, family, table);
                    let ghost prev = out@;
                    let ghost added = cmds@;
                    out.append(&mut cmds);
                    proof {
                        assert(commands_view(out@) =~= commands_view(prev) + commands_view(added));
                    }
                },
                _ => {},
            }
        }
        k += 1;
    }
    proof {
        assert(av.take(answers@.len() as int) =~= av);
    }
    out
}


/// Processing `answers` at time `now` gives commands `cmds` and cache
/// state `c_after`.
pub open spec fn processed_at(
    answers: Seq<DnsAnswerView>,
    r: RulesetView,
    client: u32,
    c: CacheState,
    now: u64,
    family: Seq<char>,
    table: Seq<char>,
    default_timeout: u32,
    cmds: Seq<NftCommandView>,
    c_after: CacheState,
) -> bool {
    now <= MAX_NOW && (cmds, c_after) == process_answers_spec(answers, r, client, c, now, family, table, default_timeout)
}

/// Processes one DNS response payload from client `client_ip`: decodes its
/// answers with `dns_parser` and processes them now (see
/// `process_dns_answers`). A payload that does not decode changes nothing
/// and gives no commands.
pub fn process_dns_payload(
    client_ip: u32,
    dns_payload: &[u8],
    ruleset: &Ruleset,
    cname_cache: &mut CnameCache,
    family: &str,
    table: &str,
    default_timeout: u32,
) -> (r: Vec<NftCommand>)
    requires
        ruleset.wf(),
        old(cname_cache).wf(),
    ensures
        final(cname_cache).wf(),
        dns_answers(dns_payload@) is None ==> r@.len() == 0 && final(cname_cache)@ == old(cname_cache)@
            && final(cname_cache).last_reading() == old(cname_cache).last_reading(),
        dns_answers(dns_payload@) is Some ==> exists|now: u64|
            old(cname_cache).last_reading() <= now && final(cname_cache).last_reading() == now
                && #[trigger] processed_at(
                dns_answers(dns_payload@).unwrap(),
                ruleset@,
                client_ip,
                old(cname_cache)@,
                now,
                family@,
                table@,
                default_timeout,
                commands_view(r@),
                final(cname_cache)@,
            ),
{
    let answers = match decode_answers(dns_payload) {
        Some(a) => a,
        None => return Vec::new(),
    };
    let now = cname_cache.now();
    let r = process_dns_answers(client_ip, &answers, ruleset, cname_cache, family, table, default_timeout, now);
    assert(processed_at(
        dns_answers(dns_payload@).unwrap(),
        ruleset@,
        client_ip,
        old(cname_cache)@,
        now,
        family@,
        table@,
        default_timeout,
        commands_view(r@),
        cname_cache@,
    ));
    r
}

/// An address reached through a CNAME is attributed to the domain that was
/// queried: when a response holds `q CNAME t` and then `t A ip`, and `q`
/// (not cached as an alias itself) matches a rule, the address of `t` gives
/// exactly the commands that an address of `q` would.
pub proof fn lemma_cname_chain_attribution(
    r: RulesetView,
    client: u32,
    c: CacheState,
    now: u64,
    q: Seq<char>,
    t: Seq<char>,
    cname_ttl: u32,
    a_ttl: u32,
    ip: u32,
    family: Seq<char>,
    table: Seq<char>,
    default_timeout: u32,
)
    requires
        state_wf(c),
        now <= MAX_NOW,
        !lru_has(c.0, spec_to_lowercase(q)),
        spec_to_lowercase(q) != spec_to_lowercase(t),
        ruleset_matches(r, spec_to_lowercase(q)),
    ensures
        process_answers_spec(
            seq![(q, 1u16, cname_ttl, AnswerDataView::Cname(t)), (t, 1u16, a_ttl, AnswerDataView::A(ip))],
            r,
            client,
            c,
            now,
            family,
            table,
            default_timeout,
        ).0 == a_record_commands(
            r,
            client,
            ip,
            spec_to_lowercase(q),
            if a_ttl == 0 {
                default_timeout
            } else {
                a_ttl
            },
            family,
            table,
        ),
{
    let cn = (q, 1u16, cname_ttl, AnswerDataView::Cname(t));
    let ar = (t, 1u16, a_ttl, AnswerDataView::A(ip));
    let answers = seq![cn, ar];
    let lq = spec_to_lowercase(q);
    let lt = spec_to_lowercase(t);
    let c1 = cache_insert(c, t, q, cname_ttl, now);
    let none = Seq::<DnsAnswerView>::empty();
    assert(answers.drop_last() =~= seq![cn]);
    assert(answers.last() == ar);
    assert(seq![cn].drop_last() =~= none);
    assert(seq![cn].last() == cn);
    assert(cname_pass(none, r, c, now) == c);
    assert(a_pass(none, r, client, c1, now, family, table, default_timeout).0 =~= Seq::<NftCommandView>::empty());
    // The queried name is not an alias: resolving it changes nothing, so
    // the first pass caches the alias.
    assert(cache_resolve(c, q, now) == (lq, c));
    assert(cname_pass(seq![cn], r, c, now) == c1);
    assert(cname_pass(answers, r, c, now) == c1);
    // The alias now leads back to the queried name.
    let v = (lq, expiry(now, clamp_ttl(cname_ttl)), clamp_ttl(cname_ttl));
    lemma_insert_keys_distinct(c.0, c.1, lt, v);
    assert(!lru_has(c1.0, lq));
    assert(clamp_ttl(cname_ttl) * NANOS_PER_SEC <= 86400 * NANOS_PER_SEC);
    lemma_resolve_after_insert(c, t, q, cname_ttl, now, now);
    assert(a_pass(seq![cn], r, client, c1, now, family, table, default_timeout) == (
        Seq::<NftCommandView>::empty(),
        c1,
    ));
}

/// A CNAME answer is cached exactly when the domain its name leads back to
/// (through the cache) is configured, whether or not the name itself is:
/// then its target maps to its name.
pub proof fn lemma_associated_cname_cached(
    r: RulesetView,
    client: u32,
    c: CacheState,
    now: u64,
    q: Seq<char>,
    t: Seq<char>,
    ttl: u32,
    family: Seq<char>,
    table: Seq<char>,
    default_timeout: u32,
)
    requires
        ruleset_matches(r, cache_resolve(c, q, now).0),
    ensures
        process_answers_spec(
            seq![(q, 1u16, ttl, AnswerDataView::Cname(t))],
            r,
            client,
            c,
            now,
            family,
            table,
            default_timeout,
        ) == (Seq::<NftCommandView>::empty(), cache_insert(cache_resolve(c, q, now).1, t, q, ttl, now)),
{
    let cn = (q, 1u16, ttl, AnswerDataView::Cname(t));
    let none = Seq::<DnsAnswerView>::empty();
    assert(seq![cn].drop_last() =~= none);
    assert(seq![cn].last() == cn);
    assert(cname_pass(none, r, c, now) == c);
    let c1 = cache_insert(cache_resolve(c, q, now).1, t, q, ttl, now);
    assert(cname_pass(seq![cn], r, c, now) == c1);
    assert(a_pass(none, r, client, c1, now, family, table, default_timeout) == (Seq::<NftCommandView>::empty(), c1));
}

/// Attribution through a chain of two CNAMEs: a response `q CNAME m1`,
/// `m1 CNAME m2`, `m2 A ip`, where only the queried `q` need match a rule
/// and none of the three names is cached yet (and the cache has room for
/// two more mappings), gives exactly the commands that an address of `q`
/// would.
pub proof fn lemma_two_hop_cname_attribution(
    r: RulesetView,
    client: u32,
    c: CacheState,
    now: u64,
    q: Seq<char>,
    m1: Seq<char>,
    m2: Seq<char>,
    ttl1: u32,
    ttl2: u32,
    a_ttl: u32,
    ip: u32,
    family: Seq<char>,
    table: Seq<char>,
    default_timeout: u32,
)
    requires
        state_wf(c),
        now <= MAX_NOW,
        c.0.len() + 2 <= c.1,
        !lru_has(c.0, spec_to_lowercase(q)),
        !lru_has(c.0, spec_to_lowercase(m1)),
        !lru_has(c.0, spec_to_lowercase(m2)),
        spec_to_lowercase(q) != spec_to_lowercase(m1),
        spec_to_lowercase(q) != spec_to_lowercase(m2),
        spec_to_lowercase(m1) != spec_to_lowercase(m2),
        ruleset_matches(r, spec_to_lowercase(q)),
    ensures
        process_answers_spec(
            seq![
                (q, 1u16, ttl1, AnswerDataView::Cname(m1)),
                (m1, 1u16, ttl2, AnswerDataView::Cname(m2)),
                (m2, 1u16, a_ttl, AnswerDataView::A(ip)),
            ],
            r,
            client,
            c,
            now,
            family,
            table,
            default_timeout,
        ).0 == a_record_commands(
            r,
            client,
            ip,
            spec_to_lowercase(q),
            if a_ttl == 0 {
                default_timeout
            } else {
                a_ttl
            },
            family,
            table,
        ),
{
    let lq = spec_to_lowercase(q);
    let l1 = spec_to_lowercase(m1);
    let l2 = spec_to_lowercase(m2);
    let a1 = (q, 1u16, ttl1, AnswerDataView::Cname(m1));
    let a2 = (m1, 1u16, ttl2, AnswerDataView::Cname(m2));
    let a3 = (m2, 1u16, a_ttl, AnswerDataView::A(ip));
    let answers = seq![a1, a2, a3];
    let none = Seq::<DnsAnswerView>::empty();
    assert(answers.drop_last() =~= seq![a1, a2]);
    assert(answers.last() == a3);
    assert(seq![a1, a2].drop_last() =~= seq![a1]);
    assert(seq![a1, a2].last() == a2);
    assert(seq![a1].drop_last() =~= none);
    assert(seq![a1].last() == a1);
    let t1 = clamp_ttl(ttl1);
    let t2 = clamp_ttl(ttl2);
    assert(t1 * NANOS_PER_SEC <= 86400 * NANOS_PER_SEC);
    assert(t2 * NANOS_PER_SEC <= 86400 * NANOS_PER_SEC);
    // First CNAME: q is not an alias, so m1 ↦ q is cached.
    assert(cname_pass(none, r, c, now) == c);
    assert(cache_resolve(c, q, now) == (lq, c));
    let v1 = (lq, expiry(now, t1), t1);
    lemma_insert_new_key(c.0, c.1, l1, v1);
    let s1 = c.0.push((l1, v1));
    let c1 = (s1, c.1);
    assert(cname_pass(seq![a1], r, c, now) == c1);
    // Second CNAME: m1 leads back to q, so m2 ↦ m1 is cached.
    lemma_follow_live(s1, l1, now, MAX_CNAME_DEPTH as nat);
    let s1b = lru_insert(s1, s1.len(), l1, (lq, expiry(now, t1), t1));
    assert(!lru_has(s1b, lq));
    assert(resolve_steps(s1b, lq, now, (MAX_CNAME_DEPTH - 1) as nat) == (lq, s1b));
    assert(cache_resolve(c1, m1, now) == (lq, (s1b, c.1)));
    let v2 = (l1, expiry(now, t2), t2);
    lemma_insert_new_key(s1b, c.1, l2, v2);
    let s2 = s1b.push((l2, v2));
    let c2 = (s2, c.1);
    assert(cname_pass(seq![a1, a2], r, c, now) == c2);
    assert(cname_pass(answers, r, c, now) == c2);
    // The address: m2 leads to m1, which leads to q.
    assert(a_pass(none, r, client, c2, now, family, table, default_timeout) == (Seq::<NftCommandView>::empty(), c2));
    assert(a_pass(seq![a1], r, client, c2, now, family, table, default_timeout) == (Seq::<NftCommandView>::empty(), c2));
    assert(a_pass(seq![a1, a2], r, client, c2, now, family, table, default_timeout) == (Seq::<NftCommandView>::empty(), c2));
    lemma_follow_live(s2, l2, now, MAX_CNAME_DEPTH as nat);
    let s3 = lru_insert(s2, s2.len(), l2, (l1, expiry(now, t2), t2));
    assert(s3[lru_pos(s3, l1)] == s2[lru_pos(s2, l1)]);
    assert(s2[lru_pos(s2, l1)] == s1b[lru_pos(s1b, l1)]);
    lemma_follow_live(s3, l1, now, (MAX_CNAME_DEPTH - 1) as nat);
    let s4 = lru_insert(s3, s3.len(), l1, (lq, expiry(now, t1), t1));
    assert(!lru_has(s4, lq));
    assert(resolve_steps(s4, lq, now, (MAX_CNAME_DEPTH - 2) as nat).0 == lq);
    assert(cache_resolve(c2, m2, now).0 == lq);
}

/// A CNAME whose name does not lead back to a configured domain is not
/// cached: such an answer alone gives no command and leaves the cache as
/// resolving its name does.
pub proof fn lemma_unassociated_cname_ignored(
    r: RulesetView,
    client: u32,
    c: CacheState,
    now: u64,
    q: Seq<char>,
    t: Seq<char>,
    ttl: u32,
    family: Seq<char>,
    table: Seq<char>,
    default_timeout: u32,
)
    requires
        !ruleset_matches(r, cache_resolve(c, q, now).0),
    ensures
        process_answers_spec(
            seq![(q, 1u16, ttl, AnswerDataView::Cname(t))],
            r,
            client,
            c,
            now,
            family,
            table,
            default_timeout,
        ) == (Seq::<NftCommandView>::empty(), cache_resolve(c, q, now).1),
{
    let cn = (q, 1u16, ttl, AnswerDataView::Cname(t));
    assert(seq![cn].drop_last() =~= Seq::<DnsAnswerView>::empty());
    assert(seq![cn].last() == cn);
    assert(cname_pass(Seq::<DnsAnswerView>::empty(), r, c, now) == c);
    assert(cname_pass(seq![cn], r, c, now) == cache_resolve(c, q, now).1);
    let c1 = cache_resolve(c, q, now).1;
    assert(a_pass(Seq::<DnsAnswerView>::empty(), r, client, c1, now, family, table, default_timeout) == (
        Seq::<NftCommandView>::empty(),
        c1,
    ));
}

// ---------------------------------------------------------------------------
// Captured packets

/// The UDP part of a sliced packet.
#[derive(Debug, Clone, PartialEq, Eq)]
pub struct UdpDatagram {
    pub source_port: u16,
    pub payload: Vec<u8>,
}

/// What is read of a sliced packet: the IPv4 destination address when the
/// network layer is IPv4, and the UDP datagram when the transport is UDP.
#[derive(Debug, Clone, PartialEq, Eq)]
pub struct PacketSlice {
    pub ipv4_destination: Option<u32>,
    pub udp: Option<UdpDatagram>,
}

/// A sliced packet as (IPv4 destination, (UDP source port, UDP payload)).
pub type PacketSliceView = (Option<u32>, Option<(u16, Seq<u8>)>);

impl View for PacketSlice {
    type V = PacketSliceView;

    open spec fn view(&self) -> PacketSliceView {
        (
            self.ipv4_destination,
            match self.udp {
                Some(u) => Some((u.source_port, u.payload@)),
                None => None,
            },
        )
    }
}

/// The view of an optional sliced packet.
pub open spec fn slice_view(s: Option<PacketSlice>) -> Option<PacketSliceView> {
    match s {
        Some(x) => Some(x@),
        None => None,
    }
}

/// What `etherparse` reads from an Ethernet frame, or `None` when it
/// refuses it.
pub uninterp spec fn ethernet_slice(bytes: Seq<u8>) -> Option<PacketSliceView>;

/// What `etherparse` reads from a bare IP packet, or `None` when it
/// refuses it.
pub uninterp spec fn ip_slice(bytes: Seq<u8>) -> Option<PacketSliceView>;

/// `etherparse::SlicedPacket::from_ethernet`, reduced to the IPv4
/// destination and the UDP source port and payload.
#[verifier::external_body]
fn slice_ethernet(bytes: &[u8]) -> (r: Option<PacketSlice>)
    ensures
        slice_view(r) == ethernet_slice(bytes@),
{
    let s = etherparse::SlicedPacket::from_ethernet(bytes).ok()?;
    Some(PacketSlice {
        ipv4_destination: match &s.net {
            Some(etherparse::NetSlice::Ipv4(v4)) => Some(u32::from(v4.header().destination_addr())),
            _ => None,
        },
        udp: match &s.transport {
            Some(etherparse::TransportSlice::Udp(u)) => Some(UdpDatagram { source_port: u.source_port(), payload: u.payload().to_vec() }),
            _ => None,
        },
    })
}

/// `etherparse::SlicedPacket::from_ip`, reduced to the IPv4 destination
/// and the UDP source port and payload.
#[verifier::external_body]
fn slice_ip(bytes: &[u8]) -> (r: Option<PacketSlice>)
    ensures
        slice_view(r) == ip_slice(bytes@),
{
    let s = etherparse::SlicedPacket::from_ip(bytes).ok()?;
    Some(PacketSlice {
        ipv4_destination: match &s.net {
            Some(etherparse::NetSlice::Ipv4(v4)) => Some(u32::from(v4.header().destination_addr())),
            _ => None,
        },
        udp: match &s.transport {
            Some(etherparse::TransportSlice::Udp(u)) => Some(UdpDatagram { source_port: u.source_port(), payload: u.payload().to_vec() }),
            _ => None,
        },
    })
}

/// A DNS response seen on the wire: the client it was sent to and the
/// UDP payload.
#[derive(Debug, Clone, PartialEq, Eq)]
pub struct SniffedDnsResponse {
    pub client_ip: u32,
    pub dns_payload: Vec<u8>,
}

/// The view of an optional DNS response, as (client, payload).
pub open spec fn sniffed_view(r: Option<SniffedDnsResponse>) -> Option<(u32, Seq<u8>)> {
    match r {
        Some(x) => Some((x.client_ip, x.dns_payload@)),
        None => None,
    }
}

/// The DNS response in a sliced packet: an IPv4 UDP datagram from port 53,
/// whose destination is the client.
pub open spec fn dns_response_of(s: PacketSliceView) -> Option<(u32, Seq<u8>)> {
    match (s.0, s.1) {
        (Some(dst), Some((port, payload))) => if port == 53 {
            Some((dst, payload))
        } else {
            None
        },
        _ => None,
    }
}

/// How a captured frame of link type `linktype` is sliced: Ethernet (1);
/// raw IP (12, 101, 128); loopback (0, 108) after a 4-byte header; Linux
/// cooked capture (113) after a 16-byte header; any other type as
/// Ethernet, else as raw IP.
pub open spec fn slice_of_frame(bytes: Seq<u8>, linktype: i32) -> Option<PacketSliceView> {
    if linktype == 1 {
        ethernet_slice(bytes)
    } else if linktype == 12 || linktype == 101 || linktype == 128 {
        ip_slice(bytes)
    } else if linktype == 0 || linktype == 108 {
        if bytes.len() < 4 {
            None
        } else {
            ip_slice(bytes.skip(4))
        }
    } else if linktype == 113 {
        if bytes.len() < 16 {
            None
        } else {
            ip_slice(bytes.skip(16))
        }
    } else {
        match ethernet_slice(bytes) {
            Some(s) => Some(s),
            None => ip_slice(bytes),
        }
    }
}

/// The DNS response carried by a sliced packet, if it is one.
pub fn select_dns_response(s: PacketSlice) -> (r: Option<SniffedDnsResponse>)
    ensures
        sniffed_view(r) == dns_response_of(s@),
{
    let dst = match s.ipv4_destination {
        Some(d) => d,
        None => return None,
    };
    let udp = match s.udp {
        Some(u) => u,
        None => return None,
    };
    if udp.source_port != 53 {
        return None;
    }
    Some(SniffedDnsResponse { client_ip: dst, dns_payload: udp.payload })
}

/// Reads a captured frame of link type `linktype` and gives the DNS
/// response it carries: an IPv4 UDP datagram from port 53, with its
/// destination as the client.
pub fn parse_packet(packet_bytes: &[u8], linktype_val: i32) -> (r: Option<SniffedDnsResponse>)
    ensures
        sniffed_view(r) == match slice_of_frame(packet_bytes@, linktype_val) {
            Some(s) => dns_response_of(s),
            None => None,
        },
{
    let n = packet_bytes.len();
    let sliced = if linktype_val == 1 {
        slice_ethernet(packet_bytes)
    } else if linktype_val == 12 || linktype_val == 101 || linktype_val == 128 {
        slice_ip(packet_bytes)
    } else if linktype_val == 0 || linktype_val == 108 {
        if n < 4 {
            return None;
        }
        slice_ip(vstd::slice::slice_subrange(packet_bytes, 4, n))
    } else if linktype_val == 113 {
        if n < 16 {
            return None;
        }
        slice_ip(vstd::slice::slice_subrange(packet_bytes, 16, n))
    } else {
        match slice_ethernet(packet_bytes) {
            Some(s) => Some(s),
            None => slice_ip(packet_bytes),
        }
    };
    proof {
        assert(packet_bytes@.subrange(4, n as int) =~= packet_bytes@.skip(4));
        assert(n >= 16 ==> packet_bytes@.subrange(16, n as int) =~= packet_bytes@.skip(16));
    }
    match sliced {
        Some(s) => select_dns_response(s),
        None => None,
    }
}

} // verus!
