//! What people are shown of trackers and of what they answer.
use vstd::prelude::*;
#[allow(unused_imports)]
use vstd::string::*;
#[allow(unused_imports)]
use vstd::utf8::*;
use crate::config::{lemma_space_at, space_at};
use crate::decimal::decimal_text;
use crate::http;
use crate::scan::{
    find, is_space, law_cut_at_the_first, law_key_and_value_are_cut, lemma_found_char, occurs,
    split, split_once,
};
use crate::tracker::{
    body_preview, debug_text, failure_text, is_html, page_line, redacted, redacted_field,
    redacted_fields, spaced, spaces_end, stripped, tag_close, words, Failure,
};

verus! {

// ---------------------------------------------------------------------------
// Bodies.

/// What is shown of a body that is no page: a character for each of its first
/// 512 bytes, itself if it can be printed and a point otherwise, and an
/// ellipsis if there are more. Of none it is said that it is empty.
pub proof fn law_what_is_shown_of_bytes(s: Seq<u8>, i: int)
    requires
        !is_html(s),
    ensures
        s.len() == 0 ==> body_preview(s) == "<empty body>"@,
        0 < s.len() <= 512 ==> body_preview(s).len() == s.len(),
        s.len() > 512 ==> body_preview(s).len() == 513 && body_preview(s)[512] as u32 == 0x2026,
        0 <= i < s.len() && i < 512 ==> body_preview(s)[i] == (if 32 <= s[i] <= 126 {
            s[i] as char
        } else {
            '.'
        }),
{
}

proof fn lemma_spaces(s: Seq<u8>, n: int, i: int)
    requires
        0 <= i <= n < s.len(),
        forall|k: int|
            0 <= k < n ==> #[trigger] s[k] == 32 || s[k] == 9 || s[k] == 10 || s[k] == 12 || s[k]
                == 13,
        s[n] == 60,
    ensures
        spaces_end(s, i) == n,
    decreases n - i,
{
    if i < n {
        lemma_spaces(s, n, i + 1);
    }
}

/// A body is a page if it opens, after any white space, with a document type or
/// with the tag of a page, in either case of letters.
pub proof fn law_what_opens_a_page(w: Seq<u8>, rest: Seq<u8>)
    requires
        forall|k: int|
            0 <= k < w.len() ==> #[trigger] w[k] == 32 || w[k] == 9 || w[k] == 10 || w[k] == 12
                || w[k] == 13,
    ensures
        is_html(w + "<!DOCTYPE".spec_bytes() + rest),
        is_html(w + "<!doctype".spec_bytes() + rest),
        is_html(w + "<html".spec_bytes() + rest),
        is_html(w + "<HTML".spec_bytes() + rest),
        rest.len() > 0 && rest[0] != 60 && rest[0] != 32 && rest[0] != 9 && rest[0] != 10 && rest[0]
            != 12 && rest[0] != 13 ==> !is_html(rest),
        !is_html(Seq::empty()),
{
    reveal_strlit("<!DOCTYPE");
    reveal_strlit("<!doctype");
    reveal_strlit("<html");
    reveal_strlit("<HTML");
    assert("<!DOCTYPE".is_ascii() && "<!doctype".is_ascii() && "<html".is_ascii()
        && "<HTML".is_ascii());
    lemma_opens(w, "<!DOCTYPE".spec_bytes(), rest);
    lemma_opens(w, "<!doctype".spec_bytes(), rest);
    lemma_opens(w, "<html".spec_bytes(), rest);
    lemma_opens(w, "<HTML".spec_bytes(), rest);
    if is_html(rest) && rest.len() > 0 && spaces_end(rest, 0) == 0 {
        if rest[0] != 60 {
            assert(rest.subrange(0, "<!DOCTYPE".spec_bytes().len() as int)[0] == rest[0]
                || rest.len() < 9);
            assert(rest.subrange(0, "<!doctype".spec_bytes().len() as int)[0] == rest[0]
                || rest.len() < 9);
            assert(rest.subrange(0, "<html".spec_bytes().len() as int)[0] == rest[0] || rest.len()
                < 5);
            assert(rest.subrange(0, "<HTML".spec_bytes().len() as int)[0] == rest[0] || rest.len()
                < 5);
        }
    }
}

proof fn lemma_opens(w: Seq<u8>, tag: Seq<u8>, rest: Seq<u8>)
    requires
        forall|k: int|
            0 <= k < w.len() ==> #[trigger] w[k] == 32 || w[k] == 9 || w[k] == 10 || w[k] == 12
                || w[k] == 13,
        tag.len() > 0,
        tag[0] == 60,
    ensures
        spaces_end(w + tag + rest, 0) == w.len(),
        w.len() + tag.len() <= (w + tag + rest).len(),
        (w + tag + rest).subrange(w.len() as int, w.len() as int + tag.len()) == tag,
{
    let s = w + tag + rest;
    let n = w.len() as int;
    assert(s[n] == tag[0]);
    assert forall|k: int| 0 <= k < n implies #[trigger] s[k] == 32 || s[k] == 9 || s[k] == 10
        || s[k] == 12 || s[k] == 13 by {
        assert(s[k] == w[k]);
    }
    lemma_spaces(s, n, 0);
    assert(s.subrange(n, n + tag.len()) =~= tag);
}

// ---------------------------------------------------------------------------
// Words.

/// The words of a text are what stands between its white space, whatever there
/// is of it; put into one line they have one space between them.
pub proof fn law_words(a: Seq<char>, c: char, b: Seq<char>, w: Seq<Seq<char>>)
    requires
        is_space(c),
        forall|i: int| 0 <= i < a.len() ==> !is_space(#[trigger] a[i]),
    ensures
        words(Seq::empty()) == Seq::<Seq<char>>::empty(),
        a.len() > 0 ==> words(a) == seq![a],
        a.len() > 0 ==> words(a + seq![c] + b) == seq![a] + words(b),
        words(seq![c] + b) == words(b),
        w.len() == 0 ==> spaced(w.push(a), 1) == a,
        w.len() > 0 ==> spaced(w.push(a), w.len() as int + 1) == spaced(
            w,
            w.len() as int,
        ) + seq![' '] + a,
{
    let s = a + seq![c] + b;
    lemma_space_at(a, 0);
    lemma_space_at(s, 0);
    let n = a.len() as int;
    assert(s[n] == c);
    assert forall|i: int| 0 <= i < n implies !is_space(#[trigger] s[i]) by {
        assert(s[i] == a[i]);
    }
    assert(space_at(s, 0) == n);
    assert(space_at(a, 0) == n);
    assert(s.take(n) =~= a);
    assert(s.skip(n + 1) =~= b);
    let t = seq![c] + b;
    assert(t[0] == c);
    assert(t.skip(1) =~= b);
    reveal_strlit(" ");
    assert(" "@ =~= seq![' ']);
    lemma_spaced_same(w, w.push(a), w.len() as int);
}

proof fn lemma_spaced_same(a: Seq<Seq<char>>, b: Seq<Seq<char>>, n: int)
    requires
        n <= a.len(),
        n <= b.len(),
        forall|i: int| 0 <= i < n ==> a[i] == b[i],
    ensures
        spaced(a, n) == spaced(b, n),
    decreases n,
{
    if n > 1 {
        lemma_spaced_same(a, b, n - 1);
    }
}

/// What is left of a text without its tags: all of it if it has none; and what
/// stands before a tag, and what is left of what stands behind where it closes.
/// A tag that does not close ends the text.
pub proof fn law_tags_are_left_out(a: Seq<char>, rest: Seq<char>, j: int)
    requires
        !a.contains('<'),
        rest.len() > 0,
        rest[0] == '<',
        0 <= j,
    ensures
        stripped(a) == a,
        j + tag_close(rest).len() <= rest.len() && occurs(rest, tag_close(rest), j) && (forall|k: int|
            0 <= k < j ==> !#[trigger] occurs(rest, tag_close(rest), k)) ==> stripped(a + rest) == a
            + stripped(rest.skip(j + tag_close(rest).len())),
        (forall|k: int| 0 <= k < rest.len() ==> !#[trigger] occurs(rest, tag_close(rest), k))
            ==> stripped(a + rest) == a,
{
    reveal_strlit("<");
    reveal_strlit(">");
    reveal_strlit("</head>");
    reveal_strlit("</style>");
    reveal_strlit("</script>");
    assert("<"@ =~= seq!['<']);
    let n = a.len() as int;
    assert forall|k: int| 0 <= k < n implies #[trigger] a[k] != '<' by {
        assert(a.contains(a[k]));
    }
    lemma_found_char(a, '<', n);
    let s = a + rest;
    assert(s[n] == rest[0]);
    assert forall|k: int| 0 <= k < n implies #[trigger] s[k] != '<' by {
        assert(s[k] == a[k]);
    }
    lemma_found_char(s, '<', n);
    assert(s.skip(n) =~= rest);
    assert(s.take(n) =~= a);
    let close = tag_close(rest);
    assert(close.len() > 0);
    crate::scan::lemma_find(rest, close, 0);
    let k = find(rest, close, 0);
    if k < rest.len() {
        assert(occurs(rest, close, k));
    }
}

/// Where a tag closes: at the next `>`, but that a head, a style and a script
/// close with what they hold.
pub proof fn law_where_a_tag_closes(rest: Seq<char>)
    requires
        rest.len() > 0,
    ensures
        ({
            let opens = |name: Seq<char>|
                rest.len() > name.len() + 1 && crate::scan::lowered_text(
                    rest.subrange(1, 1 + name.len() as int),
                ) == name && (rest[1 + name.len() as int] == ' ' || rest[1 + name.len() as int]
                    == '>' || rest[1 + name.len() as int] == '\t' || rest[1 + name.len() as int]
                    == '\n' || rest[1 + name.len() as int] == '\r');
            tag_close(rest) == (if opens("head"@) {
                "</head>"@
            } else if opens("style"@) {
                "</style>"@
            } else if opens("script"@) {
                "</script>"@
            } else {
                ">"@
            })
        }),
{
}

/// What is said of a page: that it is one, its title and its first words, as
/// far as it has them.
pub proof fn law_what_is_said_of_a_page(t: Seq<char>, w: Seq<char>)
    ensures
        page_line(None, None) =~= "HTML page"@,
        page_line(Some(t), None) =~= "HTML page"@ + " titled "@ + t,
        page_line(None, Some(w)) =~= "HTML page"@ + "; text begins "@ + w,
        page_line(Some(t), Some(w)) =~= "HTML page"@ + " titled "@ + t + "; text begins "@ + w,
{
}

// ---------------------------------------------------------------------------
// Requests.

/// Of a query field `ip` only the name is shown, and any other as it is.
pub proof fn law_destination_field_is_redacted(v: Seq<char>, f: Seq<char>)
    ensures
        redacted_field("ip="@ + v) == "ip=<redacted>"@,
        !(f.len() >= 3 && f[0] == 'i' && f[1] == 'p' && f[2] == '=') ==> redacted_field(f) == f,
{
    reveal_strlit("=");
    reveal_strlit("ip");
    reveal_strlit("ip=");
    assert("="@ =~= seq!['=']);
    assert("ip="@ + v =~= "ip"@ + seq!['='] + v);
    law_key_and_value_are_cut("ip"@, '=', v);
    law_cut_at_the_first(f, '=');
    if let Some((key, value)) = split_once(f, "="@) {
        if key == "ip"@ {
            let g = key + seq!['='] + value;
            assert(f == g);
            assert(g[0] == 'i' && g[1] == 'p' && g[2] == '=');
        }
    }
}

/// A target is shown as its path, and behind a question mark its fields, each
/// as it is shown, with an ampersand between them. One without a query is shown
/// as it is.
pub proof fn law_target_is_shown_field_by_field(path: Seq<char>, query: Seq<char>, n: int)
    requires
        !path.contains('?'),
    ensures
        redacted(path) == path,
        ({
            let fields = split(query, "&"@);
            &&& redacted(path + seq!['?'] + query) == path + redacted_fields(
                fields,
                fields.len() as int,
            )
            &&& redacted_fields(fields, 0) == Seq::<char>::empty()
            &&& redacted_fields(fields, 1) == seq!['?'] + redacted_field(fields[0])
            &&& n > 1 ==> redacted_fields(fields, n) == redacted_fields(fields, n - 1) + seq!['&']
                + redacted_field(fields[n - 1])
        }),
{
    reveal_strlit("?");
    reveal_strlit("&");
    assert("?"@ =~= seq!['?']);
    assert("&"@ =~= seq!['&']);
    law_key_and_value_are_cut(path, '?', query);
    law_cut_at_the_first(path, '?');
    if let Some((a, b)) = split_once(path, "?"@) {
        assert((a + seq!['?'] + b)[a.len() as int] == '?');
    }
    let fields = split(query, "&"@);
    reveal_with_fuel(redacted_fields, 2);
    assert(Seq::<char>::empty() + seq!['?'] =~= seq!['?']);
}

// ---------------------------------------------------------------------------
// Failures.

/// What a failed announce is said to have failed for.
pub proof fn law_failures_in_words(
    e: http::Error,
    n: u16,
    t: Seq<char>,
    len: nat,
    content_type: Option<Seq<char>>,
)
    ensures
        failure_text(Failure::BadUrl) == "tracker: unparseable announce URL"@,
        failure_text(Failure::Http(e)) == "tracker: "@ + (match e {
            http::Error::Truncated => "http: the response ended early"@,
            http::Error::BadResponse(what) => "http: malformed response: "@ + what@,
            http::Error::BodyTooLarge => "http: response body exceeds the allowed size"@,
        }),
        failure_text(Failure::HttpStatus(n)) == "tracker: HTTP status "@ + decimal_text(n as nat),
        failure_text(Failure::TrackerFailure(t)) == "tracker refused: "@ + t,
        failure_text(Failure::BadResponse(t)) == "tracker: malformed response: "@ + t,
        failure_text(Failure::NotBencode { content_type, len, preview: t })
            == "tracker: response is not bencode ("@ + decimal_text(len) + " bytes, content-type "@
            + (match content_type {
            Some(c) => c,
            None => "unset"@,
        }) + "); it begins "@ + debug_text(t),
{
}

} // verus!
