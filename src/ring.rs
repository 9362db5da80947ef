use vstd::prelude::*;
use vstd::arithmetic::div_mod::{lemma_add_mod_noop, lemma_mod_self_0, lemma_small_mod};

use crate::text::chars_of;

verus! {

/// What generation knows of one user: its name (the name of its directory), the content of
/// its `url.txt` and of its `description.html`, each `None` where the file could not be read.
pub struct UserSource {
    pub name: String,
    pub url: Option<String>,
    pub description: Option<String>,
}

pub type UserView = (Seq<char>, Option<Seq<char>>, Option<Seq<char>>);

pub open spec fn opt_view(o: Option<String>) -> Option<Seq<char>> {
    match o {
        Some(s) => Some(s@),
        None => None,
    }
}

impl View for UserSource {
    type V = UserView;

    open spec fn view(&self) -> UserView {
        (self.name@, opt_view(self.url), opt_view(self.description))
    }
}

pub open spec fn users_view(v: Vec<UserSource>) -> Seq<UserView> {
    v@.map_values(|u: UserSource| u@)
}

/// Lexicographic order on names, character by character by code point (the order of
/// `str`'s `Ord`, since UTF-8 keeps code point order).
pub open spec fn name_le(a: Seq<char>, b: Seq<char>) -> bool
    decreases a.len(),
{
    if a.len() == 0 {
        true
    } else if b.len() == 0 {
        false
    } else if a[0] != b[0] {
        a[0] < b[0]
    } else {
        name_le(a.skip(1), b.skip(1))
    }
}

pub proof fn lemma_name_le_total(a: Seq<char>, b: Seq<char>)
    ensures
        name_le(a, b) || name_le(b, a),
    decreases a.len(),
{
    if a.len() > 0 && b.len() > 0 && a[0] == b[0] {
        lemma_name_le_total(a.skip(1), b.skip(1));
    } else if a.len() > 0 && b.len() > 0 {
        assert(a[0] < b[0] || b[0] < a[0]);
    }
}

pub proof fn lemma_name_le_transitive(a: Seq<char>, b: Seq<char>, c: Seq<char>)
    requires
        name_le(a, b),
        name_le(b, c),
    ensures
        name_le(a, c),
    decreases a.len(),
{
    if a.len() > 0 && b.len() > 0 && c.len() > 0 && a[0] == b[0] && b[0] == c[0] {
        lemma_name_le_transitive(a.skip(1), b.skip(1), c.skip(1));
    }
}

/// Whether `a` comes no later than `b` in name order.
pub fn name_le_exec(a: &str, b: &str) -> (r: bool)
    ensures
        r == name_le(a@, b@),
{
    let x = chars_of(a);
    let y = chars_of(b);
    let mut i: usize = 0;
    assert(x@.skip(0) =~= x@ && y@.skip(0) =~= y@);
    while i < x.len() && i < y.len() && x[i] == y[i]
        invariant
            i <= x@.len(),
            i <= y@.len(),
            name_le(x@, y@) == name_le(x@.skip(i as int), y@.skip(i as int)),
        decreases x@.len() - i,
    {
        assert(x@.skip(i as int).skip(1) =~= x@.skip(i + 1));
        assert(y@.skip(i as int).skip(1) =~= y@.skip(i + 1));
        i = i + 1;
    }
    if i == x.len() {
        true
    } else if i == y.len() {
        false
    } else {
        x[i] < y[i]
    }
}

/// Where `x` goes in `r`: after the leading entries whose names come no later than its name.
pub open spec fn insert_pos(r: Seq<UserView>, x: UserView) -> nat
    decreases r.len(),
{
    if r.len() == 0 || !name_le(r[0].0, x.0) {
        0
    } else {
        1 + insert_pos(r.skip(1), x)
    }
}

/// `s` sorted by name by stable insertion: equal names keep their order.
pub open spec fn sorted_users(s: Seq<UserView>) -> Seq<UserView>
    decreases s.len(),
{
    if s.len() == 0 {
        seq![]
    } else {
        let r = sorted_users(s.drop_last());
        r.insert(insert_pos(r, s.last()) as int, s.last())
    }
}

pub open spec fn is_name_sorted(s: Seq<UserView>) -> bool {
    forall|i: int, j: int| 0 <= i < j < s.len() ==> name_le(#[trigger] s[i].0, #[trigger] s[j].0)
}

proof fn lemma_insert_pos(r: Seq<UserView>, x: UserView)
    ensures
        insert_pos(r, x) <= r.len(),
        forall|k: int| 0 <= k < insert_pos(r, x) ==> name_le(#[trigger] r[k].0, x.0),
        insert_pos(r, x) < r.len() ==> !name_le(r[insert_pos(r, x) as int].0, x.0),
    decreases r.len(),
{
    if r.len() > 0 && name_le(r[0].0, x.0) {
        lemma_insert_pos(r.skip(1), x);
        assert forall|k: int| 0 <= k < insert_pos(r, x) implies name_le(#[trigger] r[k].0, x.0) by {
            if k > 0 {
                assert(r.skip(1)[k - 1] == r[k]);
            }
        }
    }
}

/// The sorted order is sorted by name, and holds exactly the given users.
pub proof fn lemma_sorted_users(s: Seq<UserView>)
    ensures
        is_name_sorted(sorted_users(s)),
        sorted_users(s).to_multiset() == s.to_multiset(),
        sorted_users(s).len() == s.len(),
    decreases s.len(),
{
    broadcast use vstd::seq_lib::to_multiset_insert, vstd::seq_lib::to_multiset_build;

    if s.len() > 0 {
        let r = sorted_users(s.drop_last());
        let x = s.last();
        lemma_sorted_users(s.drop_last());
        lemma_insert_pos(r, x);
        let p = insert_pos(r, x) as int;
        let t = r.insert(p, x);
        assert(s =~= s.drop_last().push(x));
        assert(t.to_multiset() == r.to_multiset().insert(x));
        assert(s.drop_last().push(x).to_multiset() == s.drop_last().to_multiset().insert(x));
        assert forall|i: int, j: int| 0 <= i < j < t.len() implies name_le(
            #[trigger] t[i].0,
            #[trigger] t[j].0,
        ) by {
            if j < p {
                assert(t[i] == r[i] && t[j] == r[j]);
            } else if j == p {
                assert(t[i] == r[i]);
            } else if i == p {
                assert(t[j] == r[j - 1]);
                lemma_name_le_total(r[p].0, x.0);
                if j - 1 > p {
                    lemma_name_le_transitive(x.0, r[p].0, r[j - 1].0);
                }
            } else if i < p {
                assert(t[i] == r[i] && t[j] == r[j - 1]);
            } else {
                assert(t[i] == r[i - 1] && t[j] == r[j - 1]);
            }
        }
    } else {
        assert(s =~= Seq::<UserView>::empty());
    }
}

/// Sorts users by name, stably.
pub fn sort_users(users: Vec<UserSource>) -> (r: Vec<UserSource>)
    ensures
        users_view(r) == sorted_users(users_view(users)),
{
    let ghost orig = users_view(users);
    let mut rest = users;
    let mut r: Vec<UserSource> = Vec::new();
    let ghost mut i: int = 0;
    while rest.len() > 0
        invariant
            0 <= i <= orig.len(),
            users_view(rest) =~= orig.skip(i),
            rest@.len() == orig.len() - i,
            users_view(r) == sorted_users(orig.take(i)),
        decreases rest@.len(),
    {
        let ghost before = users_view(rest);
        let x = rest.remove(0);
        assert(before[0] == x@);
        assert(orig.take(i + 1).drop_last() =~= orig.take(i));
        assert(orig[i] == x@);
        let ghost rv = users_view(r);
        let mut p: usize = 0;
        assert(rv.skip(0) =~= rv);
        while p < r.len() && name_le_exec(r[p].name.as_str(), x.name.as_str())
            invariant
                p <= r@.len(),
                rv == users_view(r),
                insert_pos(rv, x@) == p + insert_pos(rv.skip(p as int), x@),
            decreases r@.len() - p,
        {
            assert(rv.skip(p as int).skip(1) =~= rv.skip(p + 1));
            assert(rv.skip(p as int)[0] == rv[p as int]);
            p = p + 1;
        }
        proof {
            if p < r.len() {
                assert(rv.skip(p as int)[0] == rv[p as int]);
            }
        }
        r.insert(p, x);
        assert(users_view(r) =~= rv.insert(p as int, x@));
        assert(users_view(rest) =~= before.skip(1));
        proof {
            i = i + 1;
        }
    }
    assert(orig.take(i) =~= orig);
    r
}

/// Index of the user before `i` in a ring of `n`.
pub open spec fn prev_index(i: int, n: int) -> int {
    (i - 1 + n) % n
}

/// Index of the user after `i` in a ring of `n`.
pub open spec fn next_index(i: int, n: int) -> int {
    (i + 1) % n
}

/// The ring neighbours of position `index` among `count` users: (previous, next).
pub fn ring_neighbors(index: usize, count: usize) -> (r: (usize, usize))
    requires
        index < count,
    ensures
        r.0 == prev_index(index as int, count as int),
        r.1 == next_index(index as int, count as int),
{
    let prev = if index == 0 { count - 1 } else { index - 1 };
    let next = if index + 1 == count { 0 } else { index + 1 };
    proof {
        if index == 0 {
            lemma_small_mod((count - 1) as nat, count as nat);
        } else {
            lemma_add_mod_noop((index - 1) as int, count as int, count as int);
            lemma_small_mod((index - 1) as nat, count as nat);
        }
        if index + 1 < count {
            lemma_small_mod((index + 1) as nat, count as nat);
        }
    }
    (prev, next)
}

/// The position reached from `i` after `k` steps forward in a ring of `n`.
pub open spec fn steps_forward(i: int, k: nat, n: int) -> int
    decreases k,
{
    if k == 0 {
        i
    } else {
        next_index(steps_forward(i, (k - 1) as nat, n), n)
    }
}

proof fn lemma_neighbor_values(i: int, n: int)
    requires
        0 <= i < n,
    ensures
        next_index(i, n) == if i + 1 == n { 0 } else { i + 1 },
        prev_index(i, n) == if i == 0 { n - 1 } else { i - 1 },
{
    if i + 1 == n {
        lemma_mod_self_0(n);
    } else {
        lemma_small_mod((i + 1) as nat, n as nat);
    }
    if i == 0 {
        lemma_small_mod((n - 1) as nat, n as nat);
    } else {
        lemma_add_mod_noop(i - 1, n, n);
        lemma_mod_self_0(n);
        lemma_small_mod((i - 1) as nat, n as nat);
    }
}

proof fn lemma_steps_forward(i: int, k: nat, n: int)
    requires
        0 <= i < n,
    ensures
        steps_forward(i, k, n) == (i + k) % n,
    decreases k,
{
    if k > 0 {
        lemma_steps_forward(i, (k - 1) as nat, n);
        let p = (i + k - 1) % n;
        assert(0 <= p < n);
        lemma_neighbor_values(p, n);
        lemma_add_mod_noop(i + k - 1, 1, n);
        if n == 1 {
            assert((i + k) % 1 == 0);
        } else {
            lemma_small_mod(1, n as nat);
            if p + 1 == n {
                lemma_mod_self_0(n);
            } else {
                lemma_small_mod((p + 1) as nat, n as nat);
            }
        }
    } else {
        lemma_small_mod(i as nat, n as nat);
    }
}

/// The ring over `n` users: every position has a previous and a next position; the previous
/// of the next, and the next of the previous, is the position itself; `n` steps forward come
/// back to it; in a ring of one the user is its own previous and next.
pub proof fn lemma_ring_links(i: int, n: int)
    requires
        0 <= i < n,
    ensures
        0 <= prev_index(i, n) < n,
        0 <= next_index(i, n) < n,
        prev_index(next_index(i, n), n) == i,
        next_index(prev_index(i, n), n) == i,
        n == 1 ==> prev_index(i, n) == i && next_index(i, n) == i,
        steps_forward(i, n as nat, n) == i,
{
    lemma_neighbor_values(i, n);
    lemma_neighbor_values(next_index(i, n), n);
    lemma_neighbor_values(prev_index(i, n), n);
    lemma_steps_forward(i, n as nat, n);
    lemma_add_mod_noop(i, n, n);
    lemma_mod_self_0(n);
    lemma_small_mod(i as nat, n as nat);
}

pub proof fn lemma_name_le_antisymmetric(a: Seq<char>, b: Seq<char>)
    requires
        name_le(a, b),
        name_le(b, a),
    ensures
        a == b,
    decreases a.len(),
{
    if a.len() > 0 && b.len() > 0 {
        lemma_name_le_antisymmetric(a.skip(1), b.skip(1));
        assert(a =~= seq![a[0]] + a.skip(1));
        assert(b =~= seq![b[0]] + b.skip(1));
    } else {
        assert(a =~= b);
    }
}

/// No two entries share a name.
pub open spec fn names_distinct(s: Seq<UserView>) -> bool {
    forall|i: int, j: int| 0 <= i < j < s.len() ==> s[i].0 != s[j].0
}

proof fn lemma_sorted_users_distinct(s: Seq<UserView>)
    requires
        names_distinct(s),
    ensures
        names_distinct(sorted_users(s)),
    decreases s.len(),
{
    broadcast use vstd::seq_lib::to_multiset_contains;

    if s.len() > 0 {
        let p = s.drop_last();
        let x = s.last();
        let r = sorted_users(p);
        lemma_sorted_users_distinct(p);
        lemma_sorted_users(p);
        lemma_insert_pos(r, x);
        let k = insert_pos(r, x) as int;
        let t = r.insert(k, x);
        assert forall|i: int, j: int| 0 <= i < j < t.len() implies t[i].0 != t[j].0 by {
            if i == k || j == k {
                let o = if i == k { j } else { i };
                let y = if o < k { r[o] } else { r[o - 1] };
                assert(t[o] == y);
                assert(r.contains(y));
                assert(r.to_multiset().count(y) > 0);
                assert(p.contains(y));
                let m = choose|m: int| 0 <= m < p.len() && p[m] == y;
                assert(s[m] == y);
                assert(s[s.len() - 1] == x);
            } else {
                let a = if i < k { i } else { i - 1 };
                let b = if j < k { j } else { j - 1 };
                assert(t[i] == r[a] && t[j] == r[b]);
            }
        }
    }
}

proof fn lemma_sorted_unique(s: Seq<UserView>, t: Seq<UserView>)
    requires
        is_name_sorted(s),
        is_name_sorted(t),
        names_distinct(s),
        s.to_multiset() == t.to_multiset(),
    ensures
        s == t,
    decreases s.len(),
{
    broadcast use vstd::seq_lib::to_multiset_contains, vstd::seq_lib::to_multiset_len, vstd::seq_lib::to_multiset_remove;

    vstd::seq_lib::to_multiset_len(s);
    vstd::seq_lib::to_multiset_len(t);
    if s.len() > 0 {
        let n = s.len() - 1;
        let a = s[n];
        let b = t[n];
        assert(t.to_multiset().count(a) > 0);
        assert(t.contains(a));
        let j = choose|j: int| 0 <= j < t.len() && t[j] == a;
        assert(s.to_multiset().count(b) > 0);
        assert(s.contains(b));
        let i = choose|i: int| 0 <= i < s.len() && s[i] == b;
        if j < n {
            assert(name_le(t[j].0, t[n].0));
        } else {
            assert(a == b);
        }
        if i < n {
            assert(name_le(s[i].0, s[n].0));
        }
        lemma_name_le_total(a.0, a.0);
        lemma_name_le_antisymmetric(a.0, b.0);
        assert(i == n);
        assert(a == b);
        vstd::seq_lib::to_multiset_remove(s, n);
        vstd::seq_lib::to_multiset_remove(t, n);
        assert(s.remove(n) =~= s.drop_last());
        assert(t.remove(n) =~= t.drop_last());
        lemma_sorted_unique(s.drop_last(), t.drop_last());
        assert(s =~= s.drop_last().push(a));
        assert(t =~= t.drop_last().push(b));
    } else {
        assert(s =~= t);
    }
}

/// With distinct names, the sorted order of a set of users does not depend on the order in
/// which they were listed.
pub proof fn lemma_sorted_independent_of_listing(s1: Seq<UserView>, s2: Seq<UserView>)
    requires
        names_distinct(s1),
        s1.to_multiset() == s2.to_multiset(),
    ensures
        sorted_users(s1) == sorted_users(s2),
        s1.len() == s2.len(),
{
    broadcast use vstd::seq_lib::to_multiset_len;

    assert(s1.to_multiset().len() == s2.to_multiset().len());
    lemma_sorted_users(s1);
    lemma_sorted_users(s2);
    lemma_sorted_users_distinct(s1);
    lemma_sorted_unique(sorted_users(s1), sorted_users(s2));
}

} // verus!
