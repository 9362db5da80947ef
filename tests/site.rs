use webring::convert::{paragraphs, txt_to_html};
use webring::pages::{
    generate_tag_pages, generate_user_pages, nav_cloud, project_exists, render_ring,
    root_index_page, users_index_page, OutputFile, REDIRECT_TEMPLATE,
};
use webring::ring::{name_le_exec, ring_neighbors, sort_users, UserSource};
use webring::tags::{filter_users_by_tag, get_tags, is_white_char};
use webring::template::replace_placeholders;

fn map(entries: &[(&str, &str)]) -> Vec<(String, String)> {
    entries.iter().map(|(k, v)| (k.to_string(), v.to_string())).collect()
}

fn strings(v: &[&str]) -> Vec<String> {
    v.iter().map(|s| s.to_string()).collect()
}

fn user(name: &str, url: Option<&str>, description: Option<&str>) -> UserSource {
    UserSource {
        name: name.to_string(),
        url: url.map(|s| s.to_string()),
        description: description.map(|s| s.to_string()),
    }
}

fn find<'a>(files: &'a [OutputFile], path: &str) -> Option<&'a OutputFile> {
    files.iter().find(|f| f.path == path)
}

fn redirect_to(url: &str) -> String {
    REDIRECT_TEMPLATE.replace("$URL", url)
}

const BASE: &str = "<h1>$TITLE</h1>$URL|$PREV_URL|$NEXT_URL|$NAVCLOUD<main>$CONTENT</main>";

#[test]
fn substitution_is_simultaneous() {
    let m = map(&[("$A", "$B"), ("$B", "done")]);
    assert_eq!(replace_placeholders("$A$B", &m), "$Bdone");
}

#[test]
fn substitution_replaces_every_occurrence() {
    let m = map(&[("$TITLE", "Home"), ("$CONTENT", "hi")]);
    assert_eq!(
        replace_placeholders("$TITLE-$CONTENT-$TITLE", &m),
        "Home-hi-Home"
    );
}

#[test]
fn substitution_ignores_unused_entries_and_unknown_tokens() {
    let m = map(&[("$URL", "x")]);
    assert_eq!(replace_placeholders("$TITLE and $CONTENT", &m), "$TITLE and $CONTENT");
    assert_eq!(replace_placeholders("", &m), "");
    assert_eq!(replace_placeholders("a$URL", &Vec::new()), "a$URL");
}

#[test]
fn substitution_does_not_expand_values() {
    let m = map(&[("$URL", "$URL$URL")]);
    assert_eq!(replace_placeholders("[$URL]", &m), "[$URL$URL]");
}

#[test]
fn tags_are_split_on_whitespace_and_deduplicated() {
    assert_eq!(get_tags(Some("rust blog\n rust\tweb ")), strings(&["rust", "blog", "web"]));
}

#[test]
fn tags_split_on_unicode_whitespace() {
    assert_eq!(get_tags(Some("a\u{3000}b\u{a0}a")), strings(&["a", "b"]));
    assert!(is_white_char('\u{2028}'));
    assert!(!is_white_char('x'));
}

#[test]
fn empty_and_absent_tags_files_give_no_tags() {
    assert_eq!(get_tags(None), Vec::<String>::new());
    assert_eq!(get_tags(Some("")), Vec::<String>::new());
    assert_eq!(get_tags(Some(" \n\t ")), Vec::<String>::new());
}

#[test]
fn tag_index_aggregates_users() {
    let users = vec![
        ("A".to_string(), strings(&["x", "y"])),
        ("B".to_string(), strings(&["y", "z"])),
    ];
    let index = filter_users_by_tag(&users);
    assert_eq!(
        index,
        vec![
            ("x".to_string(), strings(&["A"])),
            ("y".to_string(), strings(&["A", "B"])),
            ("z".to_string(), strings(&["B"])),
        ]
    );
}

#[test]
fn tag_index_of_users_without_tags_is_empty() {
    let users = vec![("A".to_string(), Vec::new()), ("B".to_string(), Vec::new())];
    assert!(filter_users_by_tag(&users).is_empty());
}

#[test]
fn ring_neighbors_wrap_around() {
    assert_eq!(ring_neighbors(0, 1), (0, 0));
    assert_eq!(ring_neighbors(0, 3), (2, 1));
    assert_eq!(ring_neighbors(1, 3), (0, 2));
    assert_eq!(ring_neighbors(2, 3), (1, 0));
}

#[test]
fn next_links_go_round_the_ring() {
    let n: usize = 5;
    let mut i: usize = 0;
    for _ in 0..n {
        i = ring_neighbors(i, n).1;
    }
    assert_eq!(i, 0);
}

#[test]
fn names_compare_by_code_point() {
    assert!(name_le_exec("alice", "bob"));
    assert!(name_le_exec("al", "alice"));
    assert!(!name_le_exec("alice", "al"));
    assert!(name_le_exec("Zed", "abe"));
    assert!(name_le_exec("same", "same"));
}

#[test]
fn users_are_sorted_by_name() {
    let users = vec![
        user("u2", Some("c"), None),
        user("u0", Some("a"), None),
        user("u1", Some("b"), None),
    ];
    let names: Vec<String> = sort_users(users).into_iter().map(|u| u.name).collect();
    assert_eq!(names, strings(&["u0", "u1", "u2"]));
}

#[test]
fn each_user_links_to_its_neighbours() {
    let users = vec![
        user("u2", Some("https://two"), Some("d2")),
        user("u0", Some("https://zero"), Some("d0")),
        user("u1", Some("https://one"), Some("d1")),
    ];
    let files = generate_user_pages(BASE, users);
    assert_eq!(files.len(), 9);
    assert_eq!(find(&files, "users/u0/next.html").unwrap().content, redirect_to("https://one"));
    assert_eq!(find(&files, "users/u0/previous.html").unwrap().content, redirect_to("https://two"));
    assert_eq!(find(&files, "users/u2/next.html").unwrap().content, redirect_to("https://zero"));
    assert_eq!(find(&files, "users/u1/previous.html").unwrap().content, redirect_to("https://zero"));
}

#[test]
fn a_single_user_is_its_own_neighbour() {
    let files = generate_user_pages(BASE, vec![user("solo", Some("https://solo"), Some("me"))]);
    assert_eq!(files.len(), 3);
    assert_eq!(find(&files, "users/solo/next.html").unwrap().content, redirect_to("https://solo"));
    assert_eq!(find(&files, "users/solo/previous.html").unwrap().content, redirect_to("https://solo"));
}

#[test]
fn user_page_fills_the_template() {
    let files = generate_user_pages(BASE, vec![user("amy", Some("https://amy"), Some("<b>hi</b>"))]);
    assert_eq!(
        find(&files, "users/amy/index.html").unwrap().content,
        "<h1>amy</h1><a href=\"https://amy\">Website</a>|||<main><b>hi</b></main>"
    );
}

#[test]
fn no_users_give_no_pages() {
    assert!(generate_user_pages(BASE, Vec::new()).is_empty());
}

#[test]
fn user_without_description_is_skipped() {
    let users = vec![
        user("alice", Some("https://alice"), Some("a")),
        user("bob", Some("https://bob"), None),
        user("carol", Some("https://carol"), Some("c")),
    ];
    let files = generate_user_pages(BASE, users);
    assert!(find(&files, "users/bob/index.html").is_none());
    assert!(find(&files, "users/alice/index.html").is_some());
    assert!(find(&files, "users/carol/index.html").is_some());
    assert_eq!(find(&files, "users/alice/next.html").unwrap().content, redirect_to("https://bob"));
}

#[test]
fn unreadable_neighbour_url_gives_fallback_text() {
    let users = vec![
        user("a", Some("https://a"), Some("x")),
        user("b", None, Some("y")),
    ];
    let files = generate_user_pages(BASE, users);
    assert_eq!(files.len(), 3);
    assert_eq!(
        find(&files, "users/a/next.html").unwrap().content,
        redirect_to("Next user URL not available")
    );
    assert_eq!(
        find(&files, "users/a/previous.html").unwrap().content,
        redirect_to("Previous user URL not available")
    );
}

#[test]
fn generation_is_repeatable_and_ignores_listing_order() {
    let make = |rev: bool| {
        let mut v = vec![
            user("alice", Some("https://alice"), Some("a")),
            user("bob", Some("https://bob"), Some("b")),
            user("carol", Some("https://carol"), Some("c")),
        ];
        if rev {
            v.reverse();
        }
        v
    };
    let first = generate_user_pages(BASE, make(false));
    let second = generate_user_pages(BASE, make(false));
    let reversed = generate_user_pages(BASE, make(true));
    let view = |f: &Vec<OutputFile>| -> Vec<(String, String)> {
        f.iter().map(|o| (o.path.clone(), o.content.clone())).collect()
    };
    assert_eq!(view(&first), view(&second));
    assert_eq!(view(&first), view(&reversed));
}

#[test]
fn render_ring_keeps_the_given_order() {
    let users = vec![user("b", Some("B"), Some("x")), user("a", Some("A"), Some("y"))];
    let files = render_ring(BASE, &users);
    assert_eq!(files[0].path, "users/b/index.html");
    assert_eq!(files[2].content, redirect_to("A"));
}

#[test]
fn end_to_end_two_users() {
    let users = vec![
        user("alice", Some("https://alice.example"), Some("Alice")),
        user("bob", Some("https://bob.example"), Some("Bob")),
    ];
    let tagged = vec![
        ("alice".to_string(), get_tags(Some("rust blog"))),
        ("bob".to_string(), get_tags(Some("blog"))),
    ];
    let index = filter_users_by_tag(&tagged);
    let tag_files = generate_tag_pages("$TITLE:$CONTENT", &index);
    assert_eq!(tag_files.len(), 2);
    assert_eq!(
        find(&tag_files, "rust/index.html").unwrap().content,
        "rust:<a href=\"../users/alice/index.html\">alice</a><br>"
    );
    assert_eq!(
        find(&tag_files, "blog/index.html").unwrap().content,
        "blog:<a href=\"../users/alice/index.html\">alice</a><br><a href=\"../users/bob/index.html\">bob</a><br>"
    );
    let files = generate_user_pages(BASE, users);
    let to_bob = redirect_to("https://bob.example");
    assert_eq!(find(&files, "users/alice/next.html").unwrap().content, to_bob);
    assert_eq!(find(&files, "users/alice/previous.html").unwrap().content, to_bob);
    assert!(to_bob.contains("URL='https://bob.example'"));
}

#[test]
fn tag_cloud_links_each_tag() {
    assert_eq!(
        nav_cloud(&strings(&["rust", "blog"])),
        "<a href=\"rust/index.html\">rust</a><a href=\"blog/index.html\">blog</a>"
    );
    assert_eq!(nav_cloud(&Vec::new()), "");
}

#[test]
fn root_page_holds_about_text_with_cloud() {
    let page = root_index_page(
        "$TITLE|$CONTENT|$NAVCLOUD|$URL",
        "<p>About</p> $NAVCLOUD",
        "Ring".to_string(),
        &strings(&["x"]),
    );
    assert_eq!(page, "Ring|<p>About</p> <a href=\"x/index.html\">x</a>||");
}

#[test]
fn users_index_lists_users() {
    let page = users_index_page("$TITLE:$CONTENT", &strings(&["a", "b"]));
    assert_eq!(
        page,
        "Users:<a href=\"a/index.html\">a</a><br><a href=\"b/index.html\">b</a><br>"
    );
}

#[test]
fn text_becomes_paragraphs() {
    assert_eq!(paragraphs("one\ntwo"), "<p>one</p><p>two</p>");
    assert_eq!(paragraphs(""), "<p></p>");
    assert_eq!(txt_to_html(b"a\nb".to_vec()), b"<p>a</p><p>b</p>".to_vec());
    assert_eq!(txt_to_html(vec![0xff]), "<p>\u{fffd}</p>".as_bytes().to_vec());
}

#[test]
fn project_root_is_recognised() {
    assert!(project_exists(&strings(&["users", "projectname.txt"])));
    assert!(!project_exists(&strings(&["users", "static"])));
}

#[test]
fn overlapping_tokens_take_the_longest_in_either_order() {
    let forward = map(&[("$A", "1"), ("$AB", "2")]);
    let backward = map(&[("$AB", "2"), ("$A", "1")]);
    assert_eq!(replace_placeholders("$AB", &forward), "2");
    assert_eq!(replace_placeholders("$AB", &backward), "2");
    assert_eq!(replace_placeholders("$A-$AB", &forward), "1-2");
    assert_eq!(replace_placeholders("$A-$AB", &backward), "1-2");
}

#[test]
fn entry_order_does_not_change_the_result() {
    let forward = map(&[("$A", "$B"), ("$B", "done")]);
    let backward = map(&[("$B", "done"), ("$A", "$B")]);
    assert_eq!(replace_placeholders("$A$B", &forward), replace_placeholders("$A$B", &backward));
}
