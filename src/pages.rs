use vstd::prelude::*;

use crate::ring::{
    UserSource, UserView, users_view, prev_index, next_index, sorted_users, sort_users, ring_neighbors,
    lemma_sorted_users, names_distinct, lemma_sorted_independent_of_listing,
};
use crate::tags::{strs, UserTagsSeq, user_tags_view};
use crate::template::{substitute, PlaceholderSeq, placeholders_view, replace_placeholders, keys_distinct};

verus! {

broadcast use vstd::string::group_string_axioms;

/// One file of the generated site: its path under the output root, and its content.
pub struct OutputFile {
    pub path: String,
    pub content: String,
}

impl View for OutputFile {
    type V = (Seq<char>, Seq<char>);

    open spec fn view(&self) -> (Seq<char>, Seq<char>) {
        (self.path@, self.content@)
    }
}

pub open spec fn files_view(v: Vec<OutputFile>) -> Seq<(Seq<char>, Seq<char>)> {
    v@.map_values(|f: OutputFile| f@)
}

/// A minimal page that sends the browser on to `$URL` at once.
pub const REDIRECT_TEMPLATE: &'static str = "
<!DOCTYPE html>
<html lang=\"en\">
<head>
    <meta charset=\"UTF-8\">
    <meta http-equiv=\"refresh\" content=\"0; URL='$URL'\" />
    <title>Redirecting...</title>
</head>
<body>
    <p>Redirecting...</p>
    <p>$URL</p>
</body>
</html>
";

pub const PREV_FALLBACK: &'static str = "Previous user URL not available";

pub const NEXT_FALLBACK: &'static str = "Next user URL not available";

/// The placeholders of a page of the shared template: its content and title, the others empty.
pub open spec fn page_map(content: Seq<char>, title: Seq<char>) -> PlaceholderSeq {
    seq![
        ("$CONTENT"@, content),
        ("$TITLE"@, title),
        ("$NAVCLOUD"@, seq![]),
        ("$URL"@, seq![]),
        ("$PREV_URL"@, seq![]),
        ("$NEXT_URL"@, seq![]),
    ]
}

/// The placeholders of a user's own page.
pub open spec fn user_page_map(name: Seq<char>, url: Seq<char>, description: Seq<char>) -> PlaceholderSeq {
    seq![
        ("$URL"@, "<a href=\""@ + url + "\">Website</a>"@),
        ("$PREV_URL"@, seq![]),
        ("$NEXT_URL"@, seq![]),
        ("$CONTENT"@, description),
        ("$TITLE"@, name),
        ("$NAVCLOUD"@, seq![]),
    ]
}

/// The six tokens of the shared template are distinct.
proof fn lemma_page_tokens_distinct(c: Seq<char>, t: Seq<char>, name: Seq<char>, url: Seq<char>, d: Seq<char>)
    ensures
        keys_distinct(page_map(c, t)),
        keys_distinct(user_page_map(name, url, d)),
{
    reveal_strlit("$CONTENT");
    reveal_strlit("$TITLE");
    reveal_strlit("$NAVCLOUD");
    reveal_strlit("$URL");
    reveal_strlit("$PREV_URL");
    reveal_strlit("$NEXT_URL");
    assert("$NAVCLOUD"@[1] != "$PREV_URL"@[1]);
    assert("$NAVCLOUD"@[2] != "$NEXT_URL"@[2]);
    assert("$PREV_URL"@[1] != "$NEXT_URL"@[1]);
    assert("$CONTENT"@[1] != "$TITLE"@[1]);
    assert("$CONTENT"@[1] != "$URL"@[1]);
    assert("$CONTENT"@ != "$TITLE"@);
    assert("$CONTENT"@ != "$NAVCLOUD"@);
    assert("$CONTENT"@ != "$URL"@);
    assert("$CONTENT"@ != "$PREV_URL"@);
    assert("$CONTENT"@ != "$NEXT_URL"@);
    assert("$TITLE"@ != "$NAVCLOUD"@);
    assert("$TITLE"@ != "$URL"@);
    assert("$TITLE"@ != "$PREV_URL"@);
    assert("$TITLE"@ != "$NEXT_URL"@);
    assert("$NAVCLOUD"@ != "$URL"@);
    assert("$NAVCLOUD"@ != "$PREV_URL"@);
    assert("$NAVCLOUD"@ != "$NEXT_URL"@);
    assert("$URL"@ != "$PREV_URL"@);
    assert("$URL"@ != "$NEXT_URL"@);
    assert("$PREV_URL"@ != "$NEXT_URL"@);
    let m = page_map(c, t);
    assert forall|i: int, j: int| 0 <= i < j < m.len() implies m[i].0 != m[j].0 by {
        assert(i == 0 || i == 1 || i == 2 || i == 3 || i == 4);
        assert(j == 1 || j == 2 || j == 3 || j == 4 || j == 5);
    }
    let u = user_page_map(name, url, d);
    assert forall|i: int, j: int| 0 <= i < j < u.len() implies u[i].0 != u[j].0 by {
        assert(i == 0 || i == 1 || i == 2 || i == 3 || i == 4);
        assert(j == 1 || j == 2 || j == 3 || j == 4 || j == 5);
    }
}

/// A redirect page to `url`.
pub open spec fn redirect_page(url: Seq<char>) -> Seq<char> {
    substitute(REDIRECT_TEMPLATE@, seq![("$URL"@, url)])
}

/// The URL of user `u`, or `fallback` where it could not be read.
pub open spec fn url_or(u: UserView, fallback: Seq<char>) -> Seq<char> {
    match u.1 {
        Some(url) => url,
        None => fallback,
    }
}

/// The files of user `i` of the ring `s`: its page and its two redirect pages, or none
/// where its URL or its description could not be read.
pub open spec fn user_files(base: Seq<char>, s: Seq<UserView>, i: int) -> Seq<(Seq<char>, Seq<char>)> {
    let u = s[i];
    let dir = "users/"@ + u.0;
    if u.1 is Some && u.2 is Some {
        seq![
            (dir + "/index.html"@, substitute(base, user_page_map(u.0, u.1->0, u.2->0))),
            (dir + "/previous.html"@, redirect_page(url_or(s[prev_index(i, s.len() as int)], PREV_FALLBACK@))),
            (dir + "/next.html"@, redirect_page(url_or(s[next_index(i, s.len() as int)], NEXT_FALLBACK@))),
        ]
    } else {
        seq![]
    }
}

/// The files of the first `k` users of the ring `s`, in order.
pub open spec fn ring_files(base: Seq<char>, s: Seq<UserView>, k: int) -> Seq<(Seq<char>, Seq<char>)>
    decreases k,
{
    if k <= 0 {
        seq![]
    } else {
        ring_files(base, s, k - 1) + user_files(base, s, k - 1)
    }
}

fn string_of(s: &str) -> (r: String)
    ensures
        r@ == s@,
{
    s.to_owned()
}

fn pair(k: &str, v: String) -> (r: (String, String))
    ensures
        r.0@ == k@,
        r.1@ == v@,
{
    (string_of(k), v)
}

/// Fills the shared template for a page with the given content and title.
pub fn render_page(base_html: &str, content: String, title: String) -> (r: String)
    ensures
        r@ == substitute(base_html@, page_map(content@, title@)),
{
    let ghost c = content@;
    let ghost t = title@;
    let mut m: Vec<(String, String)> = Vec::new();
    m.push(pair("$CONTENT", content));
    m.push(pair("$TITLE", title));
    m.push(pair("$NAVCLOUD", String::new()));
    m.push(pair("$URL", String::new()));
    m.push(pair("$PREV_URL", String::new()));
    m.push(pair("$NEXT_URL", String::new()));
    assert(placeholders_view(m) =~= page_map(c, t));
    proof {
        lemma_page_tokens_distinct(c, t, c, c, c);
    }
    replace_placeholders(base_html, &m)
}

/// The redirect page to `url`.
pub fn render_redirect(url: String) -> (r: String)
    ensures
        r@ == redirect_page(url@),
{
    let ghost u = url@;
    let mut m: Vec<(String, String)> = Vec::new();
    m.push(pair("$URL", url));
    assert(placeholders_view(m) =~= seq![("$URL"@, u)]);
    replace_placeholders(REDIRECT_TEMPLATE, &m)
}

/// A user's own page.
pub fn render_user_page(base_html: &str, name: &String, url: &String, description: &String) -> (r: String)
    ensures
        r@ == substitute(base_html@, user_page_map(name@, url@, description@)),
{
    let mut link = string_of("<a href=\"");
    link.append(url.as_str());
    link.append("\">Website</a>");
    let ghost l = link@;
    let mut m: Vec<(String, String)> = Vec::new();
    m.push(pair("$URL", link));
    m.push(pair("$PREV_URL", String::new()));
    m.push(pair("$NEXT_URL", String::new()));
    m.push(pair("$CONTENT", description.clone()));
    m.push(pair("$TITLE", name.clone()));
    m.push(pair("$NAVCLOUD", String::new()));
    assert(placeholders_view(m) =~= user_page_map(name@, url@, description@));
    proof {
        lemma_page_tokens_distinct(name@, name@, name@, url@, description@);
    }
    replace_placeholders(base_html, &m)
}

fn joined(a: &String, b: &str) -> (r: String)
    ensures
        r@ == a@ + b@,
{
    let mut r = a.clone();
    r.append(b);
    r
}

/// The pages of the users of `users`, taken in the given order as a ring: for each user
/// whose URL and description were read, its page and the redirect pages to the URLs of the
/// users before and after it.
pub fn render_ring(base_html: &str, users: &Vec<UserSource>) -> (r: Vec<OutputFile>)
    ensures
        files_view(r) == ring_files(base_html@, users_view(*users), users@.len() as int),
{
    let ghost s = users_view(*users);
    let n = users.len();
    let mut r: Vec<OutputFile> = Vec::new();
    let mut i: usize = 0;
    while i < n
        invariant
            i <= n,
            n == users@.len(),
            s == users_view(*users),
            files_view(r) == ring_files(base_html@, s, i as int),
        decreases n - i,
    {
        let u = &users[i];
        assert(s[i as int] == u@);
        let ghost before = files_view(r);
        match (&u.url, &u.description) {
            (Some(url), Some(description)) => {
                let (p, q) = ring_neighbors(i, n);
                let prev_url = match &users[p].url {
                    Some(x) => x.clone(),
                    None => string_of(PREV_FALLBACK),
                };
                let next_url = match &users[q].url {
                    Some(x) => x.clone(),
                    None => string_of(NEXT_FALLBACK),
                };
                assert(s[p as int] == users[p as int]@);
                assert(s[q as int] == users[q as int]@);
                let dir = joined(&string_of("users/"), u.name.as_str());
                r.push(OutputFile {
                    path: joined(&dir, "/index.html"),
                    content: render_user_page(base_html, &u.name, url, description),
                });
                r.push(OutputFile { path: joined(&dir, "/previous.html"), content: render_redirect(prev_url) });
                r.push(OutputFile { path: joined(&dir, "/next.html"), content: render_redirect(next_url) });
                assert(files_view(r) =~= before + user_files(base_html@, s, i as int));
            },
            _ => {
                assert(user_files(base_html@, s, i as int) =~= seq![]);
                assert(before + user_files(base_html@, s, i as int) =~= before);
            },
        }
        i = i + 1;
    }
    r
}

/// The user pages of the site: the users are sorted by name, and each is linked to the ones
/// before and after it in that order, the last to the first.
pub fn generate_user_pages(base_html: &str, users: Vec<UserSource>) -> (r: Vec<OutputFile>)
    ensures
        files_view(r) == ring_files(
            base_html@,
            sorted_users(users_view(users)),
            users@.len() as int,
        ),
{
    proof {
        lemma_sorted_users(users_view(users));
    }
    let sorted = sort_users(users);
    render_ring(base_html, &sorted)
}

/// `pre + n + mid + n + post` for each name `n` of `names`, concatenated in order.
pub open spec fn links(names: Seq<Seq<char>>, pre: Seq<char>, mid: Seq<char>, post: Seq<char>) -> Seq<char>
    decreases names.len(),
{
    if names.len() == 0 {
        seq![]
    } else {
        links(names.drop_last(), pre, mid, post) + (pre + names.last() + mid + names.last() + post)
    }
}

/// One anchor per name, each written `pre + name + mid + name + post`, all concatenated.
pub fn concat_links(names: &Vec<String>, pre: &str, mid: &str, post: &str) -> (r: String)
    ensures
        r@ == links(strs(*names), pre@, mid@, post@),
{
    let ghost ns = strs(*names);
    let mut r = String::new();
    let mut i: usize = 0;
    while i < names.len()
        invariant
            i <= names@.len(),
            ns == strs(*names),
            r@ == links(ns.take(i as int), pre@, mid@, post@),
        decreases names@.len() - i,
    {
        assert(ns.take(i + 1).drop_last() =~= ns.take(i as int));
        assert(ns.take(i + 1).last() == names@[i as int]@);
        r.append(pre);
        r.append(names[i].as_str());
        r.append(mid);
        r.append(names[i].as_str());
        r.append(post);
        i = i + 1;
    }
    assert(ns.take(names@.len() as int) =~= ns);
    r
}

/// The listing of a tag's page: a link to each user's page.
pub open spec fn member_links(names: Seq<Seq<char>>) -> Seq<char> {
    links(names, "<a href=\"../users/"@, "/index.html\">"@, "</a><br>"@)
}

/// The tag cloud: a link to each tag's page.
pub open spec fn cloud_links(tags: Seq<Seq<char>>) -> Seq<char> {
    links(tags, "<a href=\""@, "/index.html\">"@, "</a>"@)
}

/// The listing of the users index: a link to each user's page.
pub open spec fn user_links(names: Seq<Seq<char>>) -> Seq<char> {
    links(names, "<a href=\""@, "/index.html\">"@, "</a><br>"@)
}

/// The page of each tag of the index, at `<tag>/index.html`, in the order of the index.
pub open spec fn tag_files(base: Seq<char>, index: UserTagsSeq) -> Seq<(Seq<char>, Seq<char>)> {
    index.map_values(
        |e: (Seq<char>, Seq<Seq<char>>)|
            (e.0 + "/index.html"@, substitute(base, page_map(member_links(e.1), e.0))),
    )
}

/// The page of each tag of `tags_map`, given as (tag, names of its users): its title is the
/// tag, its content a link to the page of each of its users.
pub fn generate_tag_pages(base_html: &str, tags_map: &Vec<(String, Vec<String>)>) -> (r: Vec<OutputFile>)
    ensures
        files_view(r) == tag_files(base_html@, user_tags_view(*tags_map)),
{
    let ghost idx = user_tags_view(*tags_map);
    let mut r: Vec<OutputFile> = Vec::new();
    let mut k: usize = 0;
    while k < tags_map.len()
        invariant
            k <= tags_map@.len(),
            idx == user_tags_view(*tags_map),
            files_view(r) =~= tag_files(base_html@, idx).take(k as int),
        decreases tags_map@.len() - k,
    {
        let (tag, names) = &tags_map[k];
        assert(idx[k as int] == (tag@, strs(*names)));
        let content = concat_links(names, "<a href=\"../users/", "/index.html\">", "</a><br>");
        let page = render_page(base_html, content, tag.clone());
        let ghost before = files_view(r);
        r.push(OutputFile { path: joined(tag, "/index.html"), content: page });
        assert(files_view(r) =~= before.push(tag_files(base_html@, idx)[k as int]));
        assert(tag_files(base_html@, idx).take(k + 1) =~= tag_files(base_html@, idx).take(k as int).push(
            tag_files(base_html@, idx)[k as int],
        ));
        k = k + 1;
    }
    r
}

/// The tag cloud of the site: a link to the page of each tag of `tags`, in order.
pub fn nav_cloud(tags: &Vec<String>) -> (r: String)
    ensures
        r@ == cloud_links(strs(*tags)),
{
    concat_links(tags, "<a href=\"", "/index.html\">", "</a>")
}

/// The content of the root page: the about text with its `$NAVCLOUD` replaced by the tag cloud.
pub open spec fn root_content(about: Seq<char>, tags: Seq<Seq<char>>) -> Seq<char> {
    substitute(about, seq![("$NAVCLOUD"@, cloud_links(tags))])
}

/// The root page of the site: the about text, with the tag cloud in place of its
/// `$NAVCLOUD`, under the project's name.
pub fn root_index_page(base_html: &str, about: &str, project_name: String, tags: &Vec<String>) -> (r: String)
    ensures
        r@ == substitute(base_html@, page_map(root_content(about@, strs(*tags)), project_name@)),
{
    let cloud = nav_cloud(tags);
    let ghost c = cloud@;
    let mut m: Vec<(String, String)> = Vec::new();
    m.push(pair("$NAVCLOUD", cloud));
    assert(placeholders_view(m) =~= seq![("$NAVCLOUD"@, c)]);
    let content = replace_placeholders(about, &m);
    render_page(base_html, content, project_name)
}

/// The users index of the site: a link to the page of each user of `names`, in order,
/// under the title "Users".
pub fn users_index_page(base_html: &str, names: &Vec<String>) -> (r: String)
    ensures
        r@ == substitute(base_html@, page_map(user_links(strs(*names)), "Users"@)),
{
    let content = concat_links(names, "<a href=\"", "/index.html\">", "</a><br>");
    render_page(base_html, content, string_of("Users"))
}

/// Whether a directory whose entries are named `entries` is the root of a project, that is
/// holds `projectname.txt`.
pub fn project_exists(entries: &Vec<String>) -> (r: bool)
    ensures
        r == strs(*entries).contains("projectname.txt"@),
{
    crate::tags::contains_string(entries, &string_of("projectname.txt"))
}

/// Generation is repeatable: the same users, with distinct names, listed in any order, give
/// the same user pages, file for file.
pub proof fn lemma_user_pages_repeatable(base: Seq<char>, s1: Seq<UserView>, s2: Seq<UserView>)
    requires
        names_distinct(s1),
        s1.to_multiset() == s2.to_multiset(),
    ensures
        ring_files(base, sorted_users(s1), s1.len() as int) == ring_files(
            base,
            sorted_users(s2),
            s2.len() as int,
        ),
{
    lemma_sorted_independent_of_listing(s1, s2);
}

proof fn lemma_ring_files_keep(base: Seq<char>, s: Seq<UserView>, k: int, j: int, e: int)
    requires
        0 <= j < k <= s.len(),
        0 <= e < user_files(base, s, j).len(),
    ensures
        ring_files(base, s, k).contains(user_files(base, s, j)[e]),
    decreases k,
{
    let f = user_files(base, s, j)[e];
    let before = ring_files(base, s, k - 1);
    if j < k - 1 {
        lemma_ring_files_keep(base, s, k - 1, j, e);
        let m = choose|m: int| 0 <= m < before.len() && before[m] == f;
        assert(ring_files(base, s, k)[m] == f);
    } else {
        assert(ring_files(base, s, k)[before.len() + e] == f);
    }
}

/// Every user whose URL and description were read has, among the files of the ring, a
/// next page that redirects to the URL of the user after it and a previous page that
/// redirects to the URL of the user before it, the ring closing from the last user to the
/// first.
pub proof fn lemma_ring_redirects(base: Seq<char>, s: Seq<UserView>, i: int)
    requires
        0 <= i < s.len(),
        s[i].1 is Some,
        s[i].2 is Some,
    ensures
        ring_files(base, s, s.len() as int).contains(
            (
                "users/"@ + s[i].0 + "/next.html"@,
                redirect_page(url_or(s[(i + 1) % (s.len() as int)], NEXT_FALLBACK@)),
            ),
        ),
        ring_files(base, s, s.len() as int).contains(
            (
                "users/"@ + s[i].0 + "/previous.html"@,
                redirect_page(url_or(s[(i - 1 + s.len()) % (s.len() as int)], PREV_FALLBACK@)),
            ),
        ),
{
    lemma_ring_files_keep(base, s, s.len() as int, i, 1);
    lemma_ring_files_keep(base, s, s.len() as int, i, 2);
}

/// A user whose description could not be read gets no files, while every user whose URL and
/// description were read keeps its page among the files of the ring.
pub proof fn lemma_missing_description_skipped(base: Seq<char>, s: Seq<UserView>, i: int, j: int)
    requires
        0 <= i < s.len(),
        0 <= j < s.len(),
        s[i].2 is None,
        s[j].1 is Some,
        s[j].2 is Some,
    ensures
        user_files(base, s, i) == Seq::<(Seq<char>, Seq<char>)>::empty(),
        ring_files(base, s, s.len() as int).contains(
            (
                "users/"@ + s[j].0 + "/index.html"@,
                substitute(base, user_page_map(s[j].0, s[j].1->0, s[j].2->0)),
            ),
        ),
{
    lemma_ring_files_keep(base, s, s.len() as int, j, 0);
}

/// The page path of user `b` is no other path of user `a`'s files unless the names agree.
proof fn lemma_page_path_unique(a: Seq<char>, b: Seq<char>, x: Seq<char>)
    requires
        x == "/index.html"@ || x == "/previous.html"@ || x == "/next.html"@,
        "users/"@ + a + x == "users/"@ + b + "/index.html"@,
    ensures
        a == b,
{
    reveal_strlit("users/");
    reveal_strlit("/index.html");
    reveal_strlit("/previous.html");
    reveal_strlit("/next.html");
    let p = "users/"@ + a + x;
    let q = "users/"@ + b + "/index.html"@;
    let n = p.len() as int;
    if x == "/next.html"@ {
        assert(p[n - 10] == '/');
        assert(q[n - 10] == 'i');
    } else if x == "/previous.html"@ {
        assert(p[n - 11] == 'e');
        assert(q[n - 11] == '/');
    } else {
        assert(a.len() == b.len());
        assert forall|k: int| 0 <= k < a.len() implies a[k] == b[k] by {
            assert(p[6 + k] == q[6 + k]);
        }
        assert(a =~= b);
    }
}

proof fn lemma_no_page_for(base: Seq<char>, s: Seq<UserView>, v: int, k: int)
    requires
        0 <= v < s.len(),
        0 <= k <= s.len(),
        names_distinct(s),
        !(s[v].1 is Some && s[v].2 is Some),
    ensures
        forall|m: int| 0 <= m < ring_files(base, s, k).len() ==> (#[trigger] ring_files(base, s, k)[m]).0
            != "users/"@ + s[v].0 + "/index.html"@,
    decreases k,
{
    if k > 0 {
        lemma_no_page_for(base, s, v, k - 1);
        let before = ring_files(base, s, k - 1);
        let uf = user_files(base, s, k - 1);
        assert forall|m: int| 0 <= m < ring_files(base, s, k).len() implies (
        #[trigger] ring_files(base, s, k)[m]).0 != "users/"@ + s[v].0 + "/index.html"@ by {
            if m < before.len() {
                assert(ring_files(base, s, k)[m] == before[m]);
            } else {
                let e = m - before.len();
                assert(ring_files(base, s, k)[m] == uf[e]);
                let w = s[k - 1].0;
                let x = if e == 0 { "/index.html"@ } else if e == 1 { "/previous.html"@ } else { "/next.html"@ };
                assert(uf[e].0 == "users/"@ + w + x);
                if uf[e].0 == "users/"@ + s[v].0 + "/index.html"@ {
                    lemma_page_path_unique(w, s[v].0, x);
                    assert(k - 1 != v);
                }
            }
        }
    }
}

/// With distinct names, a user whose URL or description could not be read has no page
/// `users/<name>/index.html` among the files of the ring.
pub proof fn lemma_skipped_user_has_no_page(base: Seq<char>, s: Seq<UserView>, v: int)
    requires
        0 <= v < s.len(),
        names_distinct(s),
        !(s[v].1 is Some && s[v].2 is Some),
    ensures
        forall|m: int| 0 <= m < ring_files(base, s, s.len() as int).len() ==> (
        #[trigger] ring_files(base, s, s.len() as int)[m]).0 != "users/"@ + s[v].0 + "/index.html"@,
{
    lemma_no_page_for(base, s, v, s.len() as int);
}

} // verus!
