use vstd::prelude::*;

use crate::text::{chars_of, string_from_chars, push_all};

verus! {

/// A placeholder list as plain sequences: each entry is (token, replacement).
pub type PlaceholderSeq = Seq<(Seq<char>, Seq<char>)>;

/// A placeholder map: each token to its replacement.
pub type PlaceholderMap = Map<Seq<char>, Seq<char>>;

pub open spec fn placeholders_view(p: Vec<(String, String)>) -> PlaceholderSeq {
    p@.map_values(|e: (String, String)| (e.0@, e.1@))
}

/// No two entries have the same token.
pub open spec fn keys_distinct(s: PlaceholderSeq) -> bool {
    forall|i: int, j: int| 0 <= i < j < s.len() ==> s[i].0 != s[j].0
}

/// The map that the entries of `s` make, each token to its replacement.
pub open spec fn map_of(s: PlaceholderSeq) -> PlaceholderMap
    decreases s.len(),
{
    if s.len() == 0 {
        Map::empty()
    } else {
        map_of(s.drop_last()).insert(s.last().0, s.last().1)
    }
}

/// `k` is a non-empty prefix of `t`.
pub open spec fn starts_with(t: Seq<char>, k: Seq<char>) -> bool {
    0 < k.len() <= t.len() && t.subrange(0, k.len() as int) == k
}

/// `k` is the longest token of `m` that begins `t`.
pub open spec fn is_longest_token(t: Seq<char>, m: PlaceholderMap, k: Seq<char>) -> bool {
    &&& m.contains_key(k)
    &&& starts_with(t, k)
    &&& forall|k2: Seq<char>| m.contains_key(k2) && starts_with(t, k2) ==> k2.len() <= k.len()
}

/// Simultaneous substitution: the text is scanned once from the left; where tokens of `m`
/// begin, the longest of them is replaced and the scan resumes after it, so that inserted
/// text is never scanned again. The result depends on the map alone.
pub open spec fn substitute_map(t: Seq<char>, m: PlaceholderMap) -> Seq<char>
    decreases t.len(),
{
    if t.len() == 0 {
        seq![]
    } else if exists|k: Seq<char>| is_longest_token(t, m, k) {
        let k = choose|k: Seq<char>| is_longest_token(t, m, k);
        m[k] + substitute_map(t.skip(k.len() as int), m)
    } else {
        seq![t[0]] + substitute_map(t.skip(1), m)
    }
}

/// Simultaneous substitution with the map that the entries of `s` make.
pub open spec fn substitute(t: Seq<char>, s: PlaceholderSeq) -> Seq<char> {
    substitute_map(t, map_of(s))
}

/// The tokens of the map are those of the entries; with distinct tokens, each token maps to
/// the replacement of its entry.
pub proof fn lemma_map_of(s: PlaceholderSeq)
    ensures
        forall|k: Seq<char>| #[trigger]
            map_of(s).contains_key(k) <==> exists|j: int| 0 <= j < s.len() && s[j].0 == k,
        keys_distinct(s) ==> forall|j: int| 0 <= j < s.len() ==> #[trigger] map_of(s)[s[j].0] == s[j].1,
    decreases s.len(),
{
    if s.len() > 0 {
        let p = s.drop_last();
        lemma_map_of(p);
        assert forall|k: Seq<char>| #[trigger]
            map_of(s).contains_key(k) <==> exists|j: int| 0 <= j < s.len() && s[j].0 == k by {
            assert(map_of(s).contains_key(k) == (map_of(p).contains_key(k) || k == s.last().0));
            if map_of(s).contains_key(k) && k != s.last().0 {
                assert(map_of(p).contains_key(k));
                let j = choose|j: int| 0 <= j < p.len() && p[j].0 == k;
                assert(s[j].0 == k);
            }
            if exists|j: int| 0 <= j < s.len() && s[j].0 == k {
                let j = choose|j: int| 0 <= j < s.len() && s[j].0 == k;
                if j < s.len() - 1 {
                    assert(p[j].0 == k);
                    assert(map_of(p).contains_key(k));
                }
            }
        }
        if keys_distinct(s) {
            assert(keys_distinct(p));
            assert forall|j: int| 0 <= j < s.len() implies #[trigger] map_of(s)[s[j].0] == s[j].1 by {
                if j < s.len() - 1 {
                    assert(p[j] == s[j]);
                    assert(s[j].0 != s[s.len() - 1].0);
                    assert(map_of(p)[p[j].0] == p[j].1);
                }
            }
        }
    }
}

/// Two lists of entries with distinct tokens that hold the same entries, in any order, make
/// the same map, and so give the same substitution of every text.
pub proof fn lemma_entry_order_irrelevant(s1: PlaceholderSeq, s2: PlaceholderSeq, t: Seq<char>)
    requires
        keys_distinct(s1),
        keys_distinct(s2),
        forall|i: int| 0 <= i < s1.len() ==> s2.contains(#[trigger] s1[i]),
        forall|i: int| 0 <= i < s2.len() ==> s1.contains(#[trigger] s2[i]),
    ensures
        map_of(s1) == map_of(s2),
        substitute(t, s1) == substitute(t, s2),
{
    lemma_map_of(s1);
    lemma_map_of(s2);
    assert forall|k: Seq<char>| #[trigger] map_of(s1).contains_key(k) implies map_of(s2).contains_key(k)
        && map_of(s1)[k] == map_of(s2)[k] by {
        let i = choose|i: int| 0 <= i < s1.len() && s1[i].0 == k;
        assert(s2.contains(s1[i]));
        let j = choose|j: int| 0 <= j < s2.len() && s2[j] == s1[i];
        assert(map_of(s2)[s2[j].0] == s2[j].1);
    }
    assert forall|k: Seq<char>| #[trigger] map_of(s2).contains_key(k) implies map_of(s1).contains_key(k) by {
        let j = choose|j: int| 0 <= j < s2.len() && s2[j].0 == k;
        assert(s1.contains(s2[j]));
        let i = choose|i: int| 0 <= i < s1.len() && s1[i] == s2[j];
        assert(s1[i].0 == k);
    }
    assert(map_of(s1) =~= map_of(s2));
}

/// Two tokens that both begin `t` and have the same length are the same token.
proof fn lemma_prefixes_equal(t: Seq<char>, a: Seq<char>, b: Seq<char>)
    requires
        starts_with(t, a),
        starts_with(t, b),
        a.len() == b.len(),
    ensures
        a == b,
{
}

/// Whether `k` is a non-empty prefix of `t[i..]`.
fn token_at(t: &Vec<char>, i: usize, k: &Vec<char>) -> (r: bool)
    requires
        i <= t@.len(),
    ensures
        r == starts_with(t@.skip(i as int), k@),
{
    if k.len() == 0 || k.len() > t.len() - i {
        return false;
    }
    let mut p: usize = 0;
    while p < k.len()
        invariant
            i <= t@.len(),
            t@.len() <= usize::MAX,
            0 < k@.len() <= t@.len() - i,
            p <= k@.len(),
            forall|q: int| 0 <= q < p ==> t@[i + q] == k@[q],
        decreases k@.len() - p,
    {
        if t[i + p] != k[p] {
            assert(t@.skip(i as int).subrange(0, k@.len() as int)[p as int] != k@[p as int]);
            return false;
        }
        p = p + 1;
    }
    assert(t@.skip(i as int).subrange(0, k@.len() as int) =~= k@);
    true
}

/// Index of the longest token that begins `t[i..]`, or `keys.len()` when none does.
fn longest_token_at(t: &Vec<char>, i: usize, keys: &Vec<Vec<char>>, s: Ghost<PlaceholderSeq>) -> (r: usize)
    requires
        i <= t@.len(),
        keys@.len() == s@.len(),
        forall|j: int| 0 <= j < keys@.len() ==> #[trigger] keys@[j]@ == s@[j].0,
    ensures
        r <= keys@.len(),
        r < keys@.len() ==> starts_with(t@.skip(i as int), s@[r as int].0),
        r < keys@.len() ==> forall|j: int|
            0 <= j < keys@.len() && starts_with(t@.skip(i as int), #[trigger] s@[j].0) ==> s@[j].0.len()
                <= s@[r as int].0.len(),
        r == keys@.len() ==> forall|j: int|
            0 <= j < keys@.len() ==> !starts_with(t@.skip(i as int), #[trigger] s@[j].0),
{
    let ghost rest = t@.skip(i as int);
    let mut best: usize = keys.len();
    let mut j: usize = 0;
    while j < keys.len()
        invariant
            i <= t@.len(),
            rest == t@.skip(i as int),
            j <= keys@.len(),
            keys@.len() == s@.len(),
            forall|q: int| 0 <= q < keys@.len() ==> #[trigger] keys@[q]@ == s@[q].0,
            best == keys@.len() || best < j,
            best < keys@.len() ==> starts_with(rest, s@[best as int].0),
            best < keys@.len() ==> forall|q: int|
                0 <= q < j && starts_with(rest, #[trigger] s@[q].0) ==> s@[q].0.len() <= s@[best as int].0.len(),
            best == keys@.len() ==> forall|q: int| 0 <= q < j ==> !starts_with(rest, #[trigger] s@[q].0),
        decreases keys@.len() - j,
    {
        if token_at(t, i, &keys[j]) && (best == keys.len() || keys[j].len() > keys[best].len()) {
            best = j;
        }
        j = j + 1;
    }
    best
}

/// One step of the scan: the longest token found among the entries is the longest token of
/// their map, and it maps to the replacement of its entry; where no entry's token begins
/// the text, none of the map's does.
proof fn lemma_scan_step(t: Seq<char>, s: PlaceholderSeq, r: int)
    requires
        keys_distinct(s),
        0 <= r <= s.len(),
        r < s.len() ==> starts_with(t, s[r].0),
        r < s.len() ==> forall|j: int|
            0 <= j < s.len() && starts_with(t, #[trigger] s[j].0) ==> s[j].0.len() <= s[r].0.len(),
        r == s.len() ==> forall|j: int| 0 <= j < s.len() ==> !starts_with(t, #[trigger] s[j].0),
    ensures
        r < s.len() ==> (exists|k: Seq<char>| is_longest_token(t, map_of(s), k)) && (choose|k: Seq<char>|
            is_longest_token(t, map_of(s), k)) == s[r].0 && map_of(s)[s[r].0] == s[r].1,
        r == s.len() ==> !exists|k: Seq<char>| is_longest_token(t, map_of(s), k),
{
    lemma_map_of(s);
    let m = map_of(s);
    if r < s.len() {
        assert(m.contains_key(s[r].0));
        assert forall|k2: Seq<char>| m.contains_key(k2) && starts_with(t, k2) implies k2.len() <= s[r].0.len() by {
            let j = choose|j: int| 0 <= j < s.len() && s[j].0 == k2;
        }
        assert(is_longest_token(t, m, s[r].0));
        let k = choose|k: Seq<char>| is_longest_token(t, m, k);
        lemma_prefixes_equal(t, k, s[r].0);
        assert(map_of(s)[s[r].0] == s[r].1);
    } else {
        if exists|k: Seq<char>| is_longest_token(t, m, k) {
            let k = choose|k: Seq<char>| is_longest_token(t, m, k);
            let j = choose|j: int| 0 <= j < s.len() && s[j].0 == k;
            assert(!starts_with(t, s[j].0));
        }
    }
}

/// Replaces every occurrence of each token of `placeholders` in `html_content` by its
/// replacement, all at once: where tokens overlap, the longest one that begins first is
/// replaced, and replacement text is never scanned for further tokens. The tokens are
/// distinct, as in a map, and the order of the entries does not matter.
pub fn replace_placeholders(html_content: &str, placeholders: &Vec<(String, String)>) -> (r: String)
    requires
        keys_distinct(placeholders_view(*placeholders)),
    ensures
        r@ == substitute(html_content@, placeholders_view(*placeholders)),
{
    let ghost s = placeholders_view(*placeholders);
    let ghost m = map_of(s);
    let t = chars_of(html_content);
    let mut keys: Vec<Vec<char>> = Vec::new();
    let mut values: Vec<Vec<char>> = Vec::new();
    let mut e: usize = 0;
    while e < placeholders.len()
        invariant
            e <= placeholders@.len(),
            s == placeholders_view(*placeholders),
            keys@.len() == e,
            values@.len() == e,
            forall|j: int| 0 <= j < e ==> #[trigger] keys@[j]@ == s[j].0,
            forall|j: int| 0 <= j < e ==> #[trigger] values@[j]@ == s[j].1,
        decreases placeholders@.len() - e,
    {
        keys.push(chars_of(placeholders[e].0.as_str()));
        values.push(chars_of(placeholders[e].1.as_str()));
        e = e + 1;
    }
    let mut out: Vec<char> = Vec::new();
    let mut i: usize = 0;
    assert(t@.skip(0) =~= t@);
    while i < t.len()
        invariant
            i <= t@.len(),
            t@ == html_content@,
            keys_distinct(s),
            m == map_of(s),
            keys@.len() == s.len(),
            values@.len() == s.len(),
            forall|j: int| 0 <= j < s.len() ==> #[trigger] keys@[j]@ == s[j].0,
            forall|j: int| 0 <= j < s.len() ==> #[trigger] values@[j]@ == s[j].1,
            out@ + substitute_map(t@.skip(i as int), m) == substitute_map(t@, m),
        decreases t@.len() - i,
    {
        let ghost rest = t@.skip(i as int);
        let j = longest_token_at(&t, i, &keys, Ghost(s));
        proof {
            lemma_scan_step(rest, s, j as int);
        }
        if j < keys.len() {
            let ghost klen = s[j as int].0.len() as int;
            assert(rest.skip(klen) =~= t@.skip(i + klen));
            push_all(&mut out, &values[j]);
            i = i + keys[j].len();
        } else {
            assert(rest.skip(1) =~= t@.skip(i + 1));
            out.push(t[i]);
            i = i + 1;
        }
    }
    assert(t@.skip(i as int) =~= Seq::<char>::empty());
    string_from_chars(&out)
}

/// A replacement is emitted as it stands: where `k` is the longest token that begins the
/// text, the result is its replacement followed by the substitution of what comes after `k`,
/// whatever tokens the replacement itself holds.
pub proof fn lemma_replacement_not_rescanned(t: Seq<char>, m: PlaceholderMap, k: Seq<char>)
    requires
        is_longest_token(t, m, k),
    ensures
        substitute_map(t, m) == m[k] + substitute_map(t.skip(k.len() as int), m),
{
    let c = choose|c: Seq<char>| is_longest_token(t, m, c);
    lemma_prefixes_equal(t, c, k);
}

} // verus!
