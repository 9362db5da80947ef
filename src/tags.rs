use vstd::prelude::*;

use crate::text::{chars_of, string_from_chars};

verus! {

/// The views of a list of strings.
pub open spec fn strs(v: Vec<String>) -> Seq<Seq<char>> {
    v@.map_values(|s: String| s@)
}

/// Unicode's `White_Space` property, which `str::split_whitespace` splits on.
pub open spec fn is_white(c: char) -> bool {
    let u = c as u32;
    (0x09 <= u <= 0x0d) || u == 0x20 || u == 0x85 || u == 0xa0 || u == 0x1680 || (0x2000 <= u
        <= 0x200a) || u == 0x2028 || u == 0x2029 || u == 0x202f || u == 0x205f || u == 0x3000
}

pub fn is_white_char(c: char) -> (r: bool)
    ensures
        r == is_white(c),
{
    let u = c as u32;
    (0x09 <= u && u <= 0x0d) || u == 0x20 || u == 0x85 || u == 0xa0 || u == 0x1680 || (0x2000
        <= u && u <= 0x200a) || u == 0x2028 || u == 0x2029 || u == 0x202f || u == 0x205f || u
        == 0x3000
}

/// The word list `cur` closes: one word if it is non-empty, none otherwise.
pub open spec fn close_word(cur: Seq<char>) -> Seq<Seq<char>> {
    if cur.len() > 0 {
        seq![cur]
    } else {
        seq![]
    }
}

/// The whitespace-separated words of `s`, given that `cur` has been read of the current word.
pub open spec fn words_after(cur: Seq<char>, s: Seq<char>) -> Seq<Seq<char>>
    decreases s.len(),
{
    if s.len() == 0 {
        close_word(cur)
    } else if is_white(s[0]) {
        close_word(cur) + words_after(seq![], s.skip(1))
    } else {
        words_after(cur.push(s[0]), s.skip(1))
    }
}

/// The non-empty, whitespace-separated words of `s`, in order.
pub open spec fn words(s: Seq<char>) -> Seq<Seq<char>> {
    words_after(seq![], s)
}

/// `s` with every repeated element dropped, first occurrences kept in order.
pub open spec fn dedup(s: Seq<Seq<char>>) -> Seq<Seq<char>>
    decreases s.len(),
{
    if s.len() == 0 {
        seq![]
    } else if s.drop_last().contains(s.last()) {
        dedup(s.drop_last())
    } else {
        dedup(s.drop_last()).push(s.last())
    }
}

/// The tags of a user whose tags file holds `content`; `None` when there is no such file.
pub open spec fn tags_of(content: Option<Seq<char>>) -> Seq<Seq<char>> {
    match content {
        Some(c) => dedup(words(c)),
        None => seq![],
    }
}

pub proof fn lemma_dedup_contains(s: Seq<Seq<char>>, x: Seq<char>)
    ensures
        dedup(s).contains(x) <==> s.contains(x),
    decreases s.len(),
{
    if s.len() > 0 {
        lemma_dedup_contains(s.drop_last(), x);
        assert(s =~= s.drop_last().push(s.last()));
        if s.drop_last().contains(s.last()) {
            if x == s.last() {
                assert(s.contains(x));
            }
        } else {
            let d = dedup(s.drop_last());
            if x == s.last() {
                assert(d.push(s.last())[d.len() as int] == x);
            }
            if d.contains(x) {
                let k = choose|k: int| 0 <= k < d.len() && d[k] == x;
                assert(d.push(s.last())[k] == x);
            }
        }
        if s.contains(x) {
            let k = choose|k: int| 0 <= k < s.len() && s[k] == x;
            if k < s.len() - 1 {
                assert(s.drop_last()[k] == x);
            }
        }
        if s.drop_last().contains(x) {
            let k = choose|k: int| 0 <= k < s.drop_last().len() && s.drop_last()[k] == x;
            assert(s[k] == x);
        }
    }
}

pub proof fn lemma_dedup_no_duplicates(s: Seq<Seq<char>>)
    ensures
        dedup(s).no_duplicates(),
    decreases s.len(),
{
    if s.len() > 0 {
        lemma_dedup_no_duplicates(s.drop_last());
        lemma_dedup_contains(s.drop_last(), s.last());
    }
}

/// Whether `v` holds a string equal to `s`.
pub fn contains_string(v: &Vec<String>, s: &String) -> (r: bool)
    ensures
        r == strs(*v).contains(s@),
{
    let mut i: usize = 0;
    while i < v.len()
        invariant
            i <= v@.len(),
            forall|k: int| 0 <= k < i ==> v@[k]@ != s@,
        decreases v@.len() - i,
    {
        if v[i] == *s {
            assert(strs(*v)[i as int] == s@);
            return true;
        }
        i = i + 1;
    }
    proof {
        if strs(*v).contains(s@) {
            let k = choose|k: int| 0 <= k < strs(*v).len() && strs(*v)[k] == s@;
            assert(v@[k]@ == s@);
        }
    }
    false
}

/// The elements of `v`, each once, in order of first occurrence.
pub fn dedup_strings(v: &Vec<String>) -> (r: Vec<String>)
    ensures
        strs(r) == dedup(strs(*v)),
{
    let mut r: Vec<String> = Vec::new();
    let mut i: usize = 0;
    while i < v.len()
        invariant
            i <= v@.len(),
            strs(r) == dedup(strs(*v).take(i as int)),
        decreases v@.len() - i,
    {
        let ghost p = strs(*v).take(i as int);
        let ghost q = strs(*v).take(i + 1);
        assert(q.drop_last() =~= p);
        assert(q.last() == v@[i as int]@);
        proof {
            lemma_dedup_contains(p, v@[i as int]@);
        }
        if !contains_string(&r, &v[i]) {
            r.push(v[i].clone());
            assert(strs(r) =~= dedup(p).push(v@[i as int]@));
        }
        i = i + 1;
    }
    assert(strs(*v).take(v@.len() as int) =~= strs(*v));
    r
}

/// The tags of one user: the distinct whitespace-separated words of the content of its
/// tags file, in order of first occurrence; none when there is no such file (`None`).
pub fn get_tags(content: Option<&str>) -> (r: Vec<String>)
    ensures
        strs(r) == tags_of(
            match content {
                Some(c) => Some(c@),
                None => None,
            },
        ),
{
    let text = match content {
        Some(c) => c,
        None => {
            return Vec::new();
        },
    };
    let s = chars_of(text);
    let mut found: Vec<String> = Vec::new();
    let mut cur: Vec<char> = Vec::new();
    let mut i: usize = 0;
    assert(s@.skip(0) =~= s@);
    while i < s.len()
        invariant
            i <= s@.len(),
            s@ == text@,
            strs(found) + words_after(cur@, s@.skip(i as int)) == words(s@),
        decreases s@.len() - i,
    {
        let ghost rest = s@.skip(i as int);
        assert(rest.skip(1) =~= s@.skip(i + 1));
        let c = s[i];
        let ghost before = strs(found);
        if is_white_char(c) {
            if cur.len() > 0 {
                found.push(string_from_chars(&cur));
            }
            assert(strs(found) =~= before + close_word(cur@));
            cur = Vec::new();
        } else {
            cur.push(c);
        }
        i = i + 1;
    }
    let ghost before = strs(found);
    if cur.len() > 0 {
        found.push(string_from_chars(&cur));
    }
    assert(strs(found) =~= before + close_word(cur@));
    assert(s@.skip(i as int) =~= Seq::<char>::empty());
    dedup_strings(&found)
}

/// Users as plain values: each entry is (user name, that user's tags).
pub type UserTagsSeq = Seq<(Seq<char>, Seq<Seq<char>>)>;

pub open spec fn user_tags_view(u: Vec<(String, Vec<String>)>) -> UserTagsSeq {
    u@.map_values(|e: (String, Vec<String>)| (e.0@, strs(e.1)))
}

/// Every tag of every user, users in order, with repeats.
pub open spec fn all_tags(u: UserTagsSeq) -> Seq<Seq<char>>
    decreases u.len(),
{
    if u.len() == 0 {
        seq![]
    } else {
        all_tags(u.drop_last()) + u.last().1
    }
}

/// The names of the users that carry tag `t`, in order.
pub open spec fn members(u: UserTagsSeq, t: Seq<char>) -> Seq<Seq<char>>
    decreases u.len(),
{
    if u.len() == 0 {
        seq![]
    } else if u.last().1.contains(t) {
        members(u.drop_last(), t).push(u.last().0)
    } else {
        members(u.drop_last(), t)
    }
}

/// The tag index: one entry per distinct tag, in order of first occurrence, with the
/// users that carry it.
pub open spec fn tag_index(u: UserTagsSeq) -> UserTagsSeq {
    dedup(all_tags(u)).map_values(|t: Seq<char>| (t, members(u, t)))
}

/// Builds the tag index of `users`, each given as (name, tags): every distinct tag once,
/// in order of first occurrence, with the names of the users that carry it, in the order
/// of `users`.
pub fn filter_users_by_tag(users: &Vec<(String, Vec<String>)>) -> (r: Vec<(String, Vec<String>)>)
    ensures
        user_tags_view(r) == tag_index(user_tags_view(*users)),
{
    let ghost u = user_tags_view(*users);
    let mut flat: Vec<String> = Vec::new();
    let mut i: usize = 0;
    while i < users.len()
        invariant
            i <= users@.len(),
            u == user_tags_view(*users),
            strs(flat) == all_tags(u.take(i as int)),
        decreases users@.len() - i,
    {
        assert(u.take(i + 1).drop_last() =~= u.take(i as int));
        let tags = &users[i].1;
        let ghost before = strs(flat);
        let mut j: usize = 0;
        while j < tags.len()
            invariant
                j <= tags@.len(),
                strs(flat) == before + strs(*tags).take(j as int),
            decreases tags@.len() - j,
        {
            let t = tags[j].clone();
            let ghost prev = strs(flat);
            flat.push(t);
            assert(strs(flat) =~= prev.push(t@));
            assert(strs(*tags).take(j + 1) =~= strs(*tags).take(j as int).push(t@));
            assert(strs(flat) =~= before + strs(*tags).take(j + 1));
            j = j + 1;
        }
        assert(strs(*tags).take(j as int) =~= strs(*tags));
        i = i + 1;
    }
    assert(u.take(users@.len() as int) =~= u);
    let keys = dedup_strings(&flat);
    let mut r: Vec<(String, Vec<String>)> = Vec::new();
    let mut k: usize = 0;
    while k < keys.len()
        invariant
            k <= keys@.len(),
            u == user_tags_view(*users),
            strs(keys) == dedup(all_tags(u)),
            user_tags_view(r) =~= tag_index(u).take(k as int),
        decreases keys@.len() - k,
    {
        let key = &keys[k];
        let mut bucket: Vec<String> = Vec::new();
        let mut i: usize = 0;
        while i < users.len()
            invariant
                i <= users@.len(),
                u == user_tags_view(*users),
                strs(bucket) == members(u.take(i as int), key@),
            decreases users@.len() - i,
        {
            assert(u.take(i + 1).drop_last() =~= u.take(i as int));
            if contains_string(&users[i].1, key) {
                bucket.push(users[i].0.clone());
                assert(strs(bucket) =~= members(u.take(i as int), key@).push(u[i as int].0));
            }
            i = i + 1;
        }
        assert(u.take(users@.len() as int) =~= u);
        assert(strs(keys)[k as int] == key@);
        assert(tag_index(u)[k as int] == (key@, members(u, key@)));
        let ghost prev = user_tags_view(r);
        r.push((key.clone(), bucket));
        assert(user_tags_view(r) =~= prev.push((key@, members(u, key@))));
        assert(tag_index(u).take(k + 1) =~= tag_index(u).take(k as int).push(
            (key@, members(u, key@)),
        ));
        k = k + 1;
    }
    r
}

proof fn lemma_words_of_blank(s: Seq<char>)
    requires
        forall|k: int| 0 <= k < s.len() ==> is_white(#[trigger] s[k]),
    ensures
        words_after(seq![], s) == Seq::<Seq<char>>::empty(),
    decreases s.len(),
{
    if s.len() > 0 {
        assert(is_white(s[0]));
        assert forall|k: int| 0 <= k < s.skip(1).len() implies is_white(#[trigger] s.skip(1)[k]) by {
            assert(s.skip(1)[k] == s[k + 1]);
        }
        lemma_words_of_blank(s.skip(1));
        assert(close_word(seq![]) =~= Seq::<Seq<char>>::empty());
    }
}

/// A tags file that is empty, or holds nothing but whitespace, gives a user the same tags as
/// no tags file at all: none.
pub proof fn lemma_blank_tags_same_as_absent(content: Seq<char>)
    requires
        forall|k: int| 0 <= k < content.len() ==> is_white(#[trigger] content[k]),
    ensures
        tags_of(Some(content)) == tags_of(None),
        tags_of(None) == Seq::<Seq<char>>::empty(),
{
    lemma_words_of_blank(content);
    assert(dedup(Seq::<Seq<char>>::empty()) == Seq::<Seq<char>>::empty());
}

proof fn lemma_all_tags_contains(u: UserTagsSeq, t: Seq<char>)
    ensures
        all_tags(u).contains(t) <==> exists|i: int| 0 <= i < u.len() && #[trigger] u[i].1.contains(t),
    decreases u.len(),
{
    if u.len() > 0 {
        let p = u.drop_last();
        lemma_all_tags_contains(p, t);
        let a = all_tags(p);
        let l = u.last().1;
        if all_tags(u).contains(t) {
            let k = choose|k: int| 0 <= k < all_tags(u).len() && all_tags(u)[k] == t;
            if k < a.len() {
                assert(a[k] == t);
                let i = choose|i: int| 0 <= i < p.len() && #[trigger] p[i].1.contains(t);
                assert(u[i] == p[i]);
            } else {
                assert(l[k - a.len()] == t);
                assert(u[u.len() - 1].1.contains(t));
            }
        }
        if exists|i: int| 0 <= i < u.len() && #[trigger] u[i].1.contains(t) {
            let i = choose|i: int| 0 <= i < u.len() && #[trigger] u[i].1.contains(t);
            if i < u.len() - 1 {
                assert(p[i] == u[i]);
                let k = choose|k: int| 0 <= k < a.len() && a[k] == t;
                assert(all_tags(u)[k] == t);
            } else {
                let k = choose|k: int| 0 <= k < l.len() && l[k] == t;
                assert(all_tags(u)[a.len() + k] == t);
            }
        }
    }
}

/// A tag has a page in the index exactly when some user carries it.
pub proof fn lemma_index_keys(u: UserTagsSeq, t: Seq<char>)
    ensures
        dedup(all_tags(u)).contains(t) <==> exists|i: int| 0 <= i < u.len() && #[trigger] u[i].1.contains(t),
        dedup(all_tags(u)).no_duplicates(),
{
    lemma_dedup_contains(all_tags(u), t);
    lemma_all_tags_contains(u, t);
    lemma_dedup_no_duplicates(all_tags(u));
}

/// A user is listed under tag `t` exactly when it carries `t`.
pub proof fn lemma_members_contains(u: UserTagsSeq, t: Seq<char>, name: Seq<char>)
    ensures
        members(u, t).contains(name) <==> exists|i: int|
            0 <= i < u.len() && #[trigger] u[i].0 == name && u[i].1.contains(t),
    decreases u.len(),
{
    if u.len() > 0 {
        let p = u.drop_last();
        lemma_members_contains(p, t, name);
        let mp = members(p, t);
        if members(u, t).contains(name) {
            let k = choose|k: int| 0 <= k < members(u, t).len() && members(u, t)[k] == name;
            if k < mp.len() {
                assert(mp[k] == name);
                let i = choose|i: int| 0 <= i < p.len() && #[trigger] p[i].0 == name && p[i].1.contains(t);
                assert(u[i] == p[i]);
            } else {
                assert(u[u.len() - 1].0 == name);
            }
        }
        if exists|i: int| 0 <= i < u.len() && #[trigger] u[i].0 == name && u[i].1.contains(t) {
            let i = choose|i: int| 0 <= i < u.len() && #[trigger] u[i].0 == name && u[i].1.contains(t);
            if i < u.len() - 1 {
                assert(p[i] == u[i]);
                let k = choose|k: int| 0 <= k < mp.len() && mp[k] == name;
                assert(members(u, t)[k] == name);
            } else {
                assert(members(u, t)[mp.len() as int] == name);
            }
        }
    }
}

/// Where user names are distinct, no tag lists a user twice.
pub proof fn lemma_members_distinct(u: UserTagsSeq, t: Seq<char>)
    requires
        forall|i: int, j: int| 0 <= i < j < u.len() ==> u[i].0 != u[j].0,
    ensures
        members(u, t).no_duplicates(),
    decreases u.len(),
{
    if u.len() > 0 {
        let p = u.drop_last();
        lemma_members_distinct(p, t);
        lemma_members_contains(p, t, u.last().0);
        if exists|i: int| 0 <= i < p.len() && #[trigger] p[i].0 == u.last().0 && p[i].1.contains(t) {
            let i = choose|i: int| 0 <= i < p.len() && #[trigger] p[i].0 == u.last().0 && p[i].1.contains(t);
            assert(u[i].0 == u[u.len() - 1].0);
        }
    }
}

} // verus!
