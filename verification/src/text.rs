//! Character-level text handling shared by the rule tries, the CNAME cache
//! and the configuration parser: splitting on a separator, whitespace
//! trimming, lowercasing and domain-label extraction.

use vstd::prelude::*;

verus! {

/// Whether `c` has the Unicode `White_Space` property (what
/// `char::is_whitespace` tests): the 25 code points U+0009..U+000D, U+0020,
/// U+0085, U+00A0, U+1680, U+2000..U+200A, U+2028, U+2029, U+202F, U+205F
/// and U+3000.
pub open spec fn spec_is_whitespace(c: char) -> bool {
    let u = c as u32;
    ||| 0x09 <= u <= 0x0D
    ||| u == 0x20
    ||| u == 0x85
    ||| u == 0xA0
    ||| u == 0x1680
    ||| 0x2000 <= u <= 0x200A
    ||| u == 0x2028
    ||| u == 0x2029
    ||| u == 0x202F
    ||| u == 0x205F
    ||| u == 0x3000
}

/// What `str::to_lowercase` returns for a string with characters `s`.
pub uninterp spec fn spec_to_lowercase(s: Seq<char>) -> Seq<char>;

/// Whether `c` is whitespace (see `spec_is_whitespace`).
pub(crate) fn char_is_whitespace(c: char) -> (r: bool)
    ensures
        r == spec_is_whitespace(c),
{
    let u = c as u32;
    (0x09 <= u && u <= 0x0D) || u == 0x20 || u == 0x85 || u == 0xA0 || u == 0x1680 || (0x2000 <= u
        && u <= 0x200A) || u == 0x2028 || u == 0x2029 || u == 0x202F || u == 0x205F || u == 0x3000
}

/// `str::to_lowercase`: the result is named by `spec_to_lowercase`.
#[verifier::external_body]
pub(crate) fn str_to_lowercase(s: &str) -> (r: String)
    ensures
        r@ == spec_to_lowercase(s@),
{
    s.to_lowercase()
}

/// The pieces of `s` between occurrences of `sep`, where `cur` is the piece
/// read so far (as `str::split` with a `char` pattern).
pub open spec fn split_acc(s: Seq<char>, sep: char, cur: Seq<char>) -> Seq<Seq<char>>
    decreases s.len(),
{
    if s.len() == 0 {
        seq![cur]
    } else if s[0] == sep {
        seq![cur] + split_acc(s.drop_first(), sep, Seq::empty())
    } else {
        split_acc(s.drop_first(), sep, cur.push(s[0]))
    }
}

/// The pieces of `s` between occurrences of `sep`; there is always at least one.
pub open spec fn split_on(s: Seq<char>, sep: char) -> Seq<Seq<char>> {
    split_acc(s, sep, Seq::empty())
}

/// `s` without leading whitespace.
pub open spec fn trim_start(s: Seq<char>) -> Seq<char>
    decreases s.len(),
{
    if s.len() > 0 && spec_is_whitespace(s[0]) {
        trim_start(s.drop_first())
    } else {
        s
    }
}

/// `s` without trailing whitespace.
pub open spec fn trim_end(s: Seq<char>) -> Seq<char>
    decreases s.len(),
{
    if s.len() > 0 && spec_is_whitespace(s.last()) {
        trim_end(s.drop_last())
    } else {
        s
    }
}

/// `s` without leading and trailing whitespace (`str::trim`).
pub open spec fn trim(s: Seq<char>) -> Seq<char> {
    trim_end(trim_start(s))
}

/// The lowercased, trimmed, non-empty pieces among `parts`, in order.
pub open spec fn labels_of_parts(parts: Seq<Seq<char>>) -> Seq<Seq<char>>
    decreases parts.len(),
{
    if parts.len() == 0 {
        seq![]
    } else {
        let rest = labels_of_parts(parts.drop_last());
        let t = trim(parts.last());
        if t.len() == 0 {
            rest
        } else {
            rest.push(spec_to_lowercase(t))
        }
    }
}

/// The labels of a domain name: the dot-separated pieces, trimmed, with the
/// empty ones dropped, each lowercased; e.g. ` www.Apple.com.` gives
/// `["www", "apple", "com"]`.
pub open spec fn domain_labels(d: Seq<char>) -> Seq<Seq<char>> {
    labels_of_parts(split_on(d, '.'))
}

/// The characters of `s`.
pub fn str_chars(s: &str) -> (r: Vec<char>)
    ensures
        r@ == s@,
{
    let mut v: Vec<char> = Vec::new();
    for c in it: s.chars()
        invariant
            v@ == it.seq().take(it.index() as int),
    {
        v.push(c);
    }
    v
}


/// The views of a sequence of string slices.
pub open spec fn str_views(v: Seq<&str>) -> Seq<Seq<char>> {
    v.map_values(|p: &str| p@)
}

/// The views of a sequence of strings.
pub open spec fn string_views(v: Seq<String>) -> Seq<Seq<char>> {
    v.map_values(|p: String| p@)
}

proof fn lemma_split_acc_step(s: Seq<char>, i: int, sep: char, cur: Seq<char>)
    requires
        0 <= i < s.len(),
    ensures
        split_acc(s.skip(i), sep, cur) == if s[i] == sep {
            seq![cur] + split_acc(s.skip(i + 1), sep, Seq::empty())
        } else {
            split_acc(s.skip(i + 1), sep, cur.push(s[i]))
        },
{
    assert(s.skip(i).drop_first() =~= s.skip(i + 1));
    assert(s.skip(i)[0] == s[i]);
}

/// `str::split` with a `char` separator: the pieces of `s` between the
/// occurrences of `sep`.
pub fn split_str<'a>(s: &'a str, sep: char) -> (r: Vec<&'a str>)
    ensures
        str_views(r@) == split_on(s@, sep),
{
    let cs = str_chars(s);
    let n = cs.len();
    let mut parts: Vec<&'a str> = Vec::new();
    let mut start: usize = 0;
    let mut i: usize = 0;
    proof {
        assert(s@.skip(0) =~= s@);
        assert(s@.subrange(0, 0) =~= Seq::<char>::empty());
        assert(str_views(parts@) =~= Seq::<Seq<char>>::empty());
        assert(str_views(parts@) + split_on(s@, sep) =~= split_on(s@, sep));
    }
    while i < n
        invariant
            cs@ == s@,
            n == cs@.len(),
            start <= i <= n,
            split_on(s@, sep) == str_views(parts@) + split_acc(
                s@.skip(i as int),
                sep,
                s@.subrange(start as int, i as int),
            ),
        decreases n - i,
    {
        proof {
            lemma_split_acc_step(s@, i as int, sep, s@.subrange(start as int, i as int));
        }
        if cs[i] == sep {
            let piece = s.substring_char(start, i);
            let ghost old_parts = parts@;
            parts.push(piece);
            proof {
                assert(str_views(parts@) =~= str_views(old_parts).push(piece@));
                assert(s@.subrange(i + 1, i + 1) =~= Seq::<char>::empty());
                assert(str_views(parts@) + split_acc(s@.skip(i + 1), sep, Seq::empty())
                    =~= str_views(old_parts) + (seq![piece@] + split_acc(s@.skip(i + 1), sep, Seq::empty())));
            }
            start = i + 1;
        } else {
            proof {
                assert(s@.subrange(start as int, i as int).push(s@[i as int]) =~= s@.subrange(
                    start as int,
                    i + 1,
                ));
            }
        }
        i += 1;
    }
    let last = s.substring_char(start, n);
    let ghost old_parts = parts@;
    parts.push(last);
    proof {
        assert(s@.skip(n as int) =~= Seq::<char>::empty());
        assert(str_views(parts@) =~= str_views(old_parts).push(last@));
        assert(str_views(parts@) =~= str_views(old_parts) + seq![last@]);
    }
    parts
}

/// `str::trim`: `s` without leading and trailing whitespace.
pub fn trim_str<'a>(s: &'a str) -> (r: &'a str)
    ensures
        r@ == trim(s@),
{
    let cs = str_chars(s);
    let n = cs.len();
    let mut a: usize = 0;
    proof {
        assert(s@.subrange(0, n as int) =~= s@);
    }
    while a < n && char_is_whitespace(cs[a])
        invariant
            cs@ == s@,
            n == cs@.len(),
            a <= n,
            trim_start(s@) == trim_start(s@.subrange(a as int, n as int)),
        decreases n - a,
    {
        proof {
            assert(s@.subrange(a as int, n as int).drop_first() =~= s@.subrange(a + 1, n as int));
        }
        a += 1;
    }
    proof {
        assert(s@.subrange(a as int, n as int) =~= s@.subrange(a as int, n as int));
    }
    let mut b: usize = n;
    while b > a && char_is_whitespace(cs[b - 1])
        invariant
            cs@ == s@,
            n == cs@.len(),
            a <= b <= n,
            trim_start(s@) == s@.subrange(a as int, n as int),
            trim(s@) == trim_end(s@.subrange(a as int, b as int)),
        decreases b - a,
    {
        proof {
            assert(s@.subrange(a as int, b as int).drop_last() =~= s@.subrange(a as int, b - 1));
        }
        b -= 1;
    }
    s.substring_char(a, b)
}

/// The labels of `domain` (see `domain_labels`): split on `.`, trimmed,
/// empty pieces dropped, lowercased.
pub fn split_labels(domain: &str) -> (r: Vec<String>)
    ensures
        string_views(r@) == domain_labels(domain@),
{
    let parts = split_str(domain, '.');
    let ghost pv = str_views(parts@);
    let mut labels: Vec<String> = Vec::new();
    let mut k: usize = 0;
    while k < parts.len()
        invariant
            pv == str_views(parts@),
            pv == split_on(domain@, '.'),
            k <= parts@.len(),
            string_views(labels@) == labels_of_parts(pv.take(k as int)),
        decreases parts@.len() - k,
    {
        let t = trim_str(parts[k]);
        let ghost old_labels = labels@;
        proof {
            assert(pv.take(k + 1).drop_last() =~= pv.take(k as int));
            assert(pv.take(k + 1).last() == pv[k as int]);
            assert(pv[k as int] == parts@[k as int]@);
        }
        if !t.is_empty() {
            let l = str_to_lowercase(t);
            labels.push(l);
            proof {
                assert(string_views(labels@) =~= string_views(old_labels).push(l@));
            }
        }
        k += 1;
    }
    proof {
        assert(pv.take(parts@.len() as int) =~= pv);
    }
    labels
}

} // verus!
