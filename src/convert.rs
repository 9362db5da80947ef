use vstd::prelude::*;
use vstd::utf8::{decode_utf8, encode_utf8, valid_utf8};

use crate::text::{chars_of, string_from_chars, push_str};

verus! {

broadcast use vstd::string::group_string_axioms;

/// The text that `String::from_utf8_lossy` decodes from `b`.
pub uninterp spec fn lossy_text(b: Seq<u8>) -> Seq<char>;

/// Relies on `String::from_utf8_lossy`: the decoded text depends on the bytes alone, and
/// valid UTF-8 decodes unchanged.
#[verifier::external_body]
fn decode_lossy(b: &Vec<u8>) -> (r: String)
    ensures
        r@ == lossy_text(b@),
        valid_utf8(b@) ==> r@ == decode_utf8(b@),
{
    String::from_utf8_lossy(b.as_slice()).into_owned()
}

/// `t` with every newline replaced by a paragraph break.
pub open spec fn break_lines(t: Seq<char>) -> Seq<char>
    decreases t.len(),
{
    if t.len() == 0 {
        seq![]
    } else if t.last() == '\n' {
        break_lines(t.drop_last()) + "</p><p>"@
    } else {
        break_lines(t.drop_last()).push(t.last())
    }
}

/// `t` as HTML paragraphs: each line wrapped in a paragraph tag.
pub open spec fn paragraphs_of(t: Seq<char>) -> Seq<char> {
    "<p>"@ + break_lines(t) + "</p>"@
}

/// Wraps each newline-separated line of `text` in a paragraph tag.
pub fn paragraphs(text: &str) -> (r: String)
    ensures
        r@ == paragraphs_of(text@),
{
    let t = chars_of(text);
    let mut out: Vec<char> = Vec::new();
    push_str(&mut out, "<p>");
    let mut i: usize = 0;
    while i < t.len()
        invariant
            i <= t@.len(),
            t@ == text@,
            out@ == "<p>"@ + break_lines(t@.take(i as int)),
        decreases t@.len() - i,
    {
        assert(t@.take(i + 1).drop_last() =~= t@.take(i as int));
        assert(t@.take(i + 1).last() == t@[i as int]);
        if t[i] == '\n' {
            push_str(&mut out, "</p><p>");
            assert(out@ =~= "<p>"@ + break_lines(t@.take(i + 1)));
        } else {
            out.push(t[i]);
            assert(out@ =~= "<p>"@ + break_lines(t@.take(i + 1)));
        }
        i = i + 1;
    }
    assert(t@.take(i as int) =~= t@);
    push_str(&mut out, "</p>");
    string_from_chars(&out)
}

/// Turns plain text, given as bytes, into HTML paragraphs, as UTF-8 bytes; bytes that are not
/// UTF-8 decode as `String::from_utf8_lossy` decodes them.
pub fn txt_to_html(content: Vec<u8>) -> (r: Vec<u8>)
    ensures
        r@ == encode_utf8(paragraphs_of(lossy_text(content@))),
{
    let text = decode_lossy(&content);
    let html = paragraphs(text.as_str());
    html.as_str().as_bytes_vec()
}

} // verus!
