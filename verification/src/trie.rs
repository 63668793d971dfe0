//! Domain-suffix rule trie: rules are stored along the reversed labels of
//! their domain (`apple.com` under `com` then `apple`), and a query matches
//! the rule with the longest label suffix in common.

use vstd::prelude::*;
use crate::text::{domain_labels, split_labels, string_views};

verus! {

/// A path of labels from the trie's root: a domain's labels, last label first.
pub type LabelPath = Seq<Seq<char>>;

/// The rule that a domain matched: the set its addresses go to and the
/// domain pattern of the rule as it was configured.
#[derive(Debug, Clone, PartialEq, Eq)]
pub struct TrieMatch {
    pub set_name: String,
    pub pattern: String,
}

impl View for TrieMatch {
    type V = (Seq<char>, Seq<char>);

    open spec fn view(&self) -> (Seq<char>, Seq<char>) {
        (self.set_name@, self.pattern@)
    }
}

impl TrieMatch {
    /// A copy of this match.
    pub fn duplicate(&self) -> (r: Self)
        ensures
            r@ == self@,
    {
        TrieMatch { set_name: self.set_name.clone(), pattern: self.pattern.clone() }
    }
}

/// The view of an optional match.
pub open spec fn match_view(m: Option<TrieMatch>) -> Option<(Seq<char>, Seq<char>)> {
    match m {
        Some(x) => Some(x@),
        None => None,
    }
}

/// The label path under which a rule for domain `d` is stored, and along
/// which a query for `d` is looked up.
pub open spec fn domain_key(d: Seq<char>) -> LabelPath {
    domain_labels(d).reverse()
}

/// The entry of `m` at the longest prefix of `p` of length at most `n`.
pub open spec fn best_prefix<V>(m: Map<LabelPath, V>, p: LabelPath, n: nat) -> Option<V>
    decreases n,
{
    if m.contains_key(p.take(n as int)) {
        Some(m[p.take(n as int)])
    } else if n == 0 {
        None
    } else {
        best_prefix(m, p, (n - 1) as nat)
    }
}

/// The rule that a query for domain `d` matches in a trie with entries `m`:
/// the one stored at the longest prefix of the query's label path, that is
/// the rule whose domain is the longest label suffix of `d`.
pub open spec fn suffix_match(m: Map<LabelPath, (Seq<char>, Seq<char>)>, d: Seq<char>) -> Option<
    (Seq<char>, Seq<char>),
> {
    best_prefix(m, domain_key(d), domain_key(d).len())
}

/// `best_prefix` is unchanged when no prefix longer than `i` is a key.
proof fn lemma_best_prefix_skip<V>(m: Map<LabelPath, V>, p: LabelPath, i: nat, n: nat)
    requires
        i <= n,
        forall|k: int| i < k <= n ==> !m.contains_key(#[trigger] p.take(k)),
    ensures
        best_prefix(m, p, n) == best_prefix(m, p, i),
    decreases n,
{
    if n > i {
        assert(!m.contains_key(p.take(n as int)));
        lemma_best_prefix_skip(m, p, i, (n - 1) as nat);
    }
}

proof fn lemma_best_prefix_spec<V>(m: Map<LabelPath, V>, p: LabelPath, n: nat)
    requires
        n <= p.len(),
    ensures
        best_prefix(m, p, n) is None <==> forall|k: int| 0 <= k <= n ==> !m.contains_key(
            #[trigger] p.take(k),
        ),
        best_prefix(m, p, n) matches Some(v) ==> exists|k: int|
            0 <= k <= n && m.contains_key(#[trigger] p.take(k)) && m[p.take(k)] == v && forall|k2: int|
                k < k2 <= n ==> !m.contains_key(#[trigger] p.take(k2)),
    decreases n,
{
    if m.contains_key(p.take(n as int)) {
        assert(m.contains_key(p.take(n as int)));
    } else if n > 0 {
        lemma_best_prefix_spec(m, p, (n - 1) as nat);
        if best_prefix(m, p, n) is None {
            assert forall|k: int| 0 <= k <= n implies !m.contains_key(#[trigger] p.take(k)) by {
                if k < n {
                }
            }
        }
    }
}

/// A rule is found again by a query for the very domain it was stored
/// under: after `insert(d, s)`, `match_domain(d)` gives `(s, d)`.
pub proof fn lemma_match_after_insert(
    m: Map<LabelPath, (Seq<char>, Seq<char>)>,
    d: Seq<char>,
    v: (Seq<char>, Seq<char>),
)
    ensures
        suffix_match(m.insert(domain_key(d), v), d) == Some(v),
{
    assert(domain_key(d).take(domain_key(d).len() as int) =~= domain_key(d));
}

/// A query matches exactly when a rule is stored for one of its label
/// suffixes (`com`, `apple.com`, `www.apple.com` for `www.apple.com`), and
/// then it gets the rule of the longest such suffix.
pub proof fn lemma_match_is_longest_suffix(m: Map<LabelPath, (Seq<char>, Seq<char>)>, q: Seq<char>)
    ensures
        suffix_match(m, q) is None <==> forall|k: int|
            0 <= k <= domain_key(q).len() ==> !m.contains_key(#[trigger] domain_key(q).take(k)),
        suffix_match(m, q) matches Some(v) ==> exists|k: int|
            0 <= k <= domain_key(q).len() && m.contains_key(#[trigger] domain_key(q).take(k))
                && m[domain_key(q).take(k)] == v && forall|k2: int|
                k < k2 <= domain_key(q).len() ==> !m.contains_key(#[trigger] domain_key(q).take(k2)),
{
    lemma_best_prefix_spec(m, domain_key(q), domain_key(q).len());
}

/// A rule for `d` covers `d` and all of its subdomains: any query whose
/// labels end with those of `d` matches some rule.
pub proof fn lemma_rule_covers_subdomains(
    m: Map<LabelPath, (Seq<char>, Seq<char>)>,
    d: Seq<char>,
    q: Seq<char>,
)
    requires
        m.contains_key(domain_key(d)),
        domain_key(d).len() <= domain_key(q).len(),
        domain_key(q).take(domain_key(d).len() as int) == domain_key(d),
    ensures
        suffix_match(m, q) is Some,
{
    lemma_best_prefix_spec(m, domain_key(q), domain_key(q).len());
    let k = domain_key(d).len() as int;
    assert(m.contains_key(domain_key(q).take(k)));
}

struct Node {
    children: Vec<(String, usize)>,
    value: Option<TrieMatch>,
}

/// A trie of domain rules. Nodes live in one vector; node 0 is the root and
/// every edge is labelled with one lowercased domain label.
pub struct TrieNode {
    nodes: Vec<Node>,
    paths: Ghost<Seq<LabelPath>>,
    entries: Ghost<Map<LabelPath, (Seq<char>, Seq<char>)>>,
}

impl View for TrieNode {
    type V = Map<LabelPath, (Seq<char>, Seq<char>)>;

    /// The rules of the trie: label path to (set name, pattern).
    closed spec fn view(&self) -> Map<LabelPath, (Seq<char>, Seq<char>)> {
        self.entries@
    }
}

impl TrieNode {
    spec fn n(&self) -> int {
        self.nodes@.len() as int
    }

    spec fn edge(&self, i: int, k: int) -> bool {
        &&& 0 <= i < self.n()
        &&& 0 <= k < self.nodes@[i].children@.len()
    }

    spec fn target(&self, i: int, k: int) -> int {
        self.nodes@[i].children@[k].1 as int
    }

    spec fn elabel(&self, i: int, k: int) -> Seq<char> {
        self.nodes@[i].children@[k].0@
    }

    spec fn has_parent(&self, j: int) -> bool {
        exists|i: int, k: int| #[trigger] self.edge(i, k) && self.target(i, k) == j
    }

    spec fn path(&self, i: int) -> LabelPath {
        self.paths@[i]
    }

    /// Well-formedness: node `i` sits at label path `paths[i]`; every edge
    /// goes to a later node whose path extends its source's by the edge
    /// label; paths are distinct; every node but the root has an incoming
    /// edge; and the stored values are exactly the entries of the view.
    pub closed spec fn wf(&self) -> bool {
        &&& self.n() >= 1
        &&& self.paths@.len() == self.n()
        &&& self.path(0) == Seq::<Seq<char>>::empty()
        &&& forall|i: int, k: int|
            #[trigger] self.edge(i, k) ==> {
                &&& i < self.target(i, k) < self.n()
                &&& self.path(self.target(i, k)) == self.path(i).push(self.elabel(i, k))
            }
        &&& forall|i: int, j: int|
            0 <= i < self.n() && 0 <= j < self.n() && i != j ==> #[trigger] self.path(i)
                != #[trigger] self.path(j)
        &&& forall|j: int| 0 < j < self.n() ==> #[trigger] self.has_parent(j)
        &&& forall|i: int|
            0 <= i < self.n() ==> (#[trigger] self.nodes@[i].value is Some
                <==> self.entries@.contains_key(self.path(i)))
        &&& forall|i: int|
            0 <= i < self.n() && (#[trigger] self.nodes@[i].value is Some) ==> self.entries@[self.path(
                i,
            )] == self.nodes@[i].value.unwrap()@
        &&& forall|p: LabelPath| #[trigger]
            self.entries@.contains_key(p) ==> exists|i: int| 0 <= i < self.n() && self.path(i) == p
    }


    /// Every prefix of a node's path is the path of some node.
    proof fn lemma_prefix_node(&self, k: int, m: int)
        requires
            self.wf(),
            0 <= k < self.n(),
            0 <= m <= self.path(k).len(),
        ensures
            exists|j: int| 0 <= j < self.n() && self.path(j) == self.path(k).take(m),
        decreases k,
    {
        if m == self.path(k).len() {
            assert(self.path(k).take(m) =~= self.path(k));
        } else {
            if k == 0 {
                assert(false);
            }
            assert(self.has_parent(k));
            let (i, q) = choose|i: int, q: int| #[trigger] self.edge(i, q) && self.target(i, q) == k;
            assert(self.path(k) == self.path(i).push(self.elabel(i, q)));
            assert(self.path(k).take(m) =~= self.path(i).take(m));
            self.lemma_prefix_node(i, m);
        }
    }

    /// When node `cur` has no edge labelled `l`, no node's path extends
    /// `path(cur)` by `l`.
    proof fn lemma_absent_edge(&self, cur: int, l: Seq<char>)
        requires
            self.wf(),
            0 <= cur < self.n(),
            forall|k: int| #[trigger] self.edge(cur, k) ==> self.elabel(cur, k) != l,
        ensures
            forall|j: int|
                0 <= j < self.n() && self.path(cur).len() < self.path(j).len() ==> #[trigger] self.path(
                    j,
                ).take(self.path(cur).len() + 1int) != self.path(cur).push(l),
    {
        assert forall|j: int|
            0 <= j < self.n() && self.path(cur).len() < self.path(j).len() implies #[trigger] self.path(
                j,
            ).take(self.path(cur).len() + 1int) != self.path(cur).push(l) by {
            if self.path(j).take(self.path(cur).len() + 1int) == self.path(cur).push(l) {
                self.lemma_prefix_node(j, self.path(cur).len() + 1int);
                let m = choose|m: int|
                    0 <= m < self.n() && self.path(m) == self.path(j).take(self.path(cur).len() + 1int);
                assert(m != 0) by {
                    assert(self.path(m).len() == self.path(cur).len() + 1int);
                }
                assert(self.has_parent(m));
                let (i, q) = choose|i: int, q: int| #[trigger] self.edge(i, q) && self.target(i, q) == m;
                assert(self.path(m) == self.path(i).push(self.elabel(i, q)));
                assert(self.path(i) =~= self.path(m).drop_last());
                assert(self.path(cur) =~= self.path(m).drop_last());
                assert(i == cur);
                assert(self.elabel(i, q) == self.path(m).last());
                assert(self.edge(cur, q));
            }
        }
    }

    /// The child of node `cur` along the edge labelled `label`.
    fn find_child(&self, cur: usize, label: &String) -> (r: Option<usize>)
        requires
            self.wf(),
            cur < self.n(),
        ensures
            match r {
                Some(j) => j < self.n() && self.path(j as int) == self.path(cur as int).push(label@),
                None => forall|k: int| #[trigger] self.edge(cur as int, k) ==> self.elabel(cur as int, k) != label@,
            },
    {
        let children = &self.nodes[cur].children;
        let mut k: usize = 0;
        while k < children.len()
            invariant
                self.wf(),
                cur < self.n(),
                children == &self.nodes@[cur as int].children,
                k <= children@.len(),
                forall|q: int| 0 <= q < k ==> #[trigger] self.elabel(cur as int, q) != label@,
            decreases children@.len() - k,
        {
            if children[k].0 == *label {
                assert(self.edge(cur as int, k as int));
                return Some(children[k].1);
            }
            k += 1;
        }
        None
    }


    /// The rule matched by `domain`: the rule stored for the longest label
    /// suffix of `domain`, if any. `apple.com` matches `apple.com` and
    /// `www.apple.com`; when `sub.apple.com` is also stored,
    /// `www.sub.apple.com` matches it.
    pub fn match_domain(&self, domain: &str) -> (r: Option<TrieMatch>)
        requires
            self.wf(),
        ensures
            match_view(r) == suffix_match(self@, domain@),
    {
        let labels = split_labels(domain);
        proof {
            assert(domain_key(domain@) =~= string_views(labels@).reverse());
        }
        self.match_labels(labels.as_slice())
    }

    /// The rule stored for the longest suffix of the (already lowercased
    /// and trimmed) labels `labels`, if any.
    pub fn match_labels(&self, labels: &[String]) -> (r: Option<TrieMatch>)
        requires
            self.wf(),
        ensures
            match_view(r) == best_prefix(self@, string_views(labels@).reverse(), labels@.len()),
    {
        let ghost p = string_views(labels@).reverse();
        let n = labels.len();
        proof {
            assert(p.len() == n);
        }
        let mut cur: usize = 0;
        let mut last: Option<TrieMatch> = None;
        let mut i: usize = 0;
        proof {
            assert(p.take(0) =~= Seq::<Seq<char>>::empty());
        }
        while i < n
            invariant
                self.wf(),
                cur < self.n(),
                i <= n,
                n == labels@.len(),
                p == string_views(labels@).reverse(),
                p.len() == n,
                self.path(cur as int) == p.take(i as int),
                match_view(last) == if i == 0 {
                    None
                } else {
                    best_prefix(self@, p, (i - 1) as nat)
                },
            decreases n - i,
        {
            if let Some(v) = &self.nodes[cur].value {
                last = Some(v.duplicate());
            }
            assert(match_view(last) == best_prefix(self@, p, i as nat));
            let label = &labels[n - 1 - i];
            proof {
                assert(label@ == p[i as int]);
            }
            match self.find_child(cur, label) {
                Some(j) => {
                    proof {
                        assert(p.take(i as int).push(p[i as int]) =~= p.take(i + 1));
                    }
                    cur = j;
                },
                None => {
                    proof {
                        self.lemma_absent_edge(cur as int, label@);
                        assert forall|k: int| i < k <= n implies !self@.contains_key(
                            #[trigger] p.take(k),
                        ) by {
                            if self@.contains_key(p.take(k)) {
                                let j = choose|j: int|
                                    0 <= j < self.n() && self.path(j) == p.take(k);
                                assert(p.take(k).take(i + 1) =~= p.take(i as int).push(p[i as int]));
                                assert(self.path(j).take(self.path(cur as int).len() + 1int)
                                    != self.path(cur as int).push(label@));
                            }
                        }
                        lemma_best_prefix_skip(self@, p, i as nat, n as nat);
                    }
                    return last;
                },
            }
            i += 1;
        }
        proof {
            assert(p.take(n as int) =~= p);
        }
        if let Some(v) = &self.nodes[cur].value {
            Some(v.duplicate())
        } else {
            last
        }
    }


    /// Adds a new node below `cur` along an edge labelled `label`, which
    /// `cur` does not have yet.
    fn add_child(&mut self, cur: usize, label: String) -> (j: usize)
        requires
            old(self).wf(),
            cur < old(self).n(),
            forall|k: int| #[trigger] old(self).edge(cur as int, k) ==> old(self).elabel(cur as int, k) != label@,
        ensures
            final(self).wf(),
            final(self)@ == old(self)@,
            j == old(self).n(),
            final(self).n() == old(self).n() + 1,
            final(self).path(j as int) == old(self).path(cur as int).push(label@),
    {
        let ghost old_self = *self;
        let ghost lv = label@;
        proof {
            old_self.lemma_absent_edge(cur as int, lv);
        }
        self.nodes.push(Node { children: Vec::new(), value: None });
        let j = self.nodes.len() - 1;
        self.nodes[cur].children.push((label, j));
        self.paths = Ghost(self.paths@.push(old_self.path(cur as int).push(lv)));
        proof {
            let new_k = old_self.nodes@[cur as int].children@.len() as int;
            assert forall|i: int, k: int| #[trigger] old_self.edge(i, k) implies self.edge(i, k)
                && self.target(i, k) == old_self.target(i, k) && self.elabel(i, k) == old_self.elabel(i, k) by {
                if i == cur as int {
                    assert(self.nodes@[i].children@[k] == old_self.nodes@[i].children@[k]);
                }
            }
            assert(self.edge(cur as int, new_k));
            assert(self.target(cur as int, new_k) == j);
            assert(self.elabel(cur as int, new_k) == lv);
            assert forall|i: int, k: int| #[trigger] self.edge(i, k) implies (old_self.edge(i, k)
                || (i == cur && k == new_k)) by {
                if i == j as int {
                    assert(self.nodes@[i].children@.len() == 0);
                }
            }
            assert forall|i: int| 0 <= i < old_self.n() implies #[trigger] self.path(i) == old_self.path(i) by {}
            assert forall|m: int| 0 <= m < old_self.n() implies #[trigger] old_self.path(m) != self.path(j as int) by {
                if old_self.path(m) == self.path(j as int) {
                    assert(old_self.path(m).len() == old_self.path(cur as int).len() + 1);
                    assert(old_self.path(m).take(old_self.path(cur as int).len() + 1int) =~= old_self.path(m));
                }
            }
            assert forall|i: int, k: int| #[trigger] self.edge(i, k) implies {
                &&& i < self.target(i, k) < self.n()
                &&& self.path(self.target(i, k)) == self.path(i).push(self.elabel(i, k))
            } by {
                if !(i == cur && k == new_k) {
                    assert(old_self.edge(i, k));
                }
            }
            assert forall|i: int, m: int|
                0 <= i < self.n() && 0 <= m < self.n() && i != m implies #[trigger] self.path(i)
                != #[trigger] self.path(m) by {
                if i < old_self.n() && m < old_self.n() {
                    assert(old_self.path(i) != old_self.path(m));
                }
            }
            assert forall|m: int| 0 < m < self.n() implies #[trigger] self.has_parent(m) by {
                if m == j as int {
                    assert(self.edge(cur as int, new_k) && self.target(cur as int, new_k) == m);
                } else {
                    assert(old_self.has_parent(m));
                    let (i, k) = choose|i: int, k: int| #[trigger] old_self.edge(i, k) && old_self.target(i, k) == m;
                    assert(self.edge(i, k) && self.target(i, k) == m);
                }
            }
            assert forall|i: int| 0 <= i < self.n() implies (#[trigger] self.nodes@[i].value is Some
                <==> self.entries@.contains_key(self.path(i))) by {
                if i < old_self.n() {
                    assert(self.nodes@[i].value == old_self.nodes@[i].value);
                } else {
                    if self.entries@.contains_key(self.path(i)) {
                        let m = choose|m: int| 0 <= m < old_self.n() && old_self.path(m) == self.path(i);
                    }
                }
            }
            assert forall|i: int|
                0 <= i < self.n() && (#[trigger] self.nodes@[i].value is Some) implies self.entries@[self.path(i)]
                == self.nodes@[i].value.unwrap()@ by {
                assert(self.nodes@[i].value == old_self.nodes@[i].value);
            }
            assert forall|q: LabelPath| #[trigger] self.entries@.contains_key(q) implies exists|i: int|
                0 <= i < self.n() && self.path(i) == q by {
                let i = choose|i: int| 0 <= i < old_self.n() && old_self.path(i) == q;
                assert(self.path(i) == q);
            }
        }
        j
    }

    /// Gives node `cur` the value `m`.
    fn set_value(&mut self, cur: usize, m: TrieMatch)
        requires
            old(self).wf(),
            cur < old(self).n(),
        ensures
            final(self).wf(),
            final(self)@ == old(self)@.insert(old(self).path(cur as int), m@),
    {
        let ghost old_self = *self;
        let ghost mv = m@;
        self.nodes[cur].value = Some(m);
        self.entries = Ghost(self.entries@.insert(old_self.path(cur as int), mv));
        proof {
            assert forall|i: int, k: int| #[trigger] self.edge(i, k) implies old_self.edge(i, k)
                && self.target(i, k) == old_self.target(i, k) && self.elabel(i, k) == old_self.elabel(i, k) by {
                assert(self.nodes@[i].children == old_self.nodes@[i].children);
            }
            assert forall|i: int, k: int| #[trigger] old_self.edge(i, k) implies self.edge(i, k) by {
                assert(self.nodes@[i].children == old_self.nodes@[i].children);
            }
            assert forall|m2: int| 0 < m2 < self.n() implies #[trigger] self.has_parent(m2) by {
                assert(old_self.has_parent(m2));
                let (i, k) = choose|i: int, k: int| #[trigger] old_self.edge(i, k) && old_self.target(i, k) == m2;
                assert(self.edge(i, k));
            }
            assert forall|i: int| 0 <= i < self.n() && i != cur implies #[trigger] self.path(i) != self.path(cur as int) by {
                assert(old_self.path(i) != old_self.path(cur as int));
            }
            assert forall|i: int, m2: int|
                0 <= i < self.n() && 0 <= m2 < self.n() && i != m2 implies #[trigger] self.path(i)
                != #[trigger] self.path(m2) by {
                assert(old_self.path(i) != old_self.path(m2));
            }
            assert forall|i: int| 0 <= i < self.n() implies (#[trigger] self.nodes@[i].value is Some
                <==> self.entries@.contains_key(self.path(i))) by {
                if i != cur {
                    assert(self.nodes@[i].value == old_self.nodes@[i].value);
                }
            }
            assert forall|i: int|
                0 <= i < self.n() && (#[trigger] self.nodes@[i].value is Some) implies self.entries@[self.path(i)]
                == self.nodes@[i].value.unwrap()@ by {
                if i != cur {
                    assert(self.nodes@[i].value == old_self.nodes@[i].value);
                }
            }
            assert forall|q: LabelPath| #[trigger] self.entries@.contains_key(q) implies exists|i: int|
                0 <= i < self.n() && self.path(i) == q by {
                if q != old_self.path(cur as int) {
                    let i = choose|i: int| 0 <= i < old_self.n() && old_self.path(i) == q;
                    assert(self.path(i) == q);
                } else {
                    assert(self.path(cur as int) == q);
                }
            }
        }
    }

    /// Stores the rule `domain → set_name` under the reversed labels of
    /// `domain` (`apple.com` is stored at `com`, then `apple`), replacing a
    /// rule stored there before; the pattern recorded is `domain` as given.
    pub fn insert(&mut self, domain: &str, set_name: String)
        requires
            old(self).wf(),
        ensures
            final(self).wf(),
            final(self)@ == old(self)@.insert(domain_key(domain@), (set_name@, domain@)),
    {
        let labels = split_labels(domain);
        proof {
            assert(domain_key(domain@) =~= string_views(labels@).reverse());
        }
        self.insert_labels(labels.as_slice(), set_name, domain.to_owned());
    }

    /// Stores the rule `(set_name, pattern)` under the reversed labels
    /// `labels` (already lowercased and trimmed), replacing a rule stored
    /// there before.
    pub fn insert_labels(&mut self, labels: &[String], set_name: String, pattern: String)
        requires
            old(self).wf(),
        ensures
            final(self).wf(),
            final(self)@ == old(self)@.insert(string_views(labels@).reverse(), (set_name@, pattern@)),
    {
        let ghost p = string_views(labels@).reverse();
        let n = labels.len();
        proof {
            assert(p.take(0) =~= Seq::<Seq<char>>::empty());
        }
        let mut cur: usize = 0;
        let mut i: usize = 0;
        while i < n
            invariant
                self.wf(),
                self@ == old(self)@,
                cur < self.n(),
                i <= n,
                n == labels@.len(),
                p == string_views(labels@).reverse(),
                p.len() == n,
                self.path(cur as int) == p.take(i as int),
            decreases n - i,
        {
            let label = &labels[n - 1 - i];
            proof {
                assert(label@ == p[i as int]);
                assert(p.take(i as int).push(p[i as int]) =~= p.take(i + 1));
            }
            match self.find_child(cur, label) {
                Some(j) => {
                    cur = j;
                },
                None => {
                    cur = self.add_child(cur, label.clone());
                },
            }
            i += 1;
        }
        proof {
            assert(p.take(n as int) =~= p);
        }
        self.set_value(cur, TrieMatch { set_name, pattern });
    }

    /// An empty trie.
    pub fn new() -> (r: Self)
        ensures
            r.wf(),
            r@ == Map::<LabelPath, (Seq<char>, Seq<char>)>::empty(),
    {
        let mut nodes: Vec<Node> = Vec::new();
        nodes.push(Node { children: Vec::new(), value: None });
        TrieNode {
            nodes,
            paths: Ghost(Seq::<LabelPath>::empty().push(Seq::<Seq<char>>::empty())),
            entries: Ghost(Map::empty()),
        }
    }
}

} // verus!
