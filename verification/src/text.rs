//! Making somebody else's text safe to put in front of a person.
//!
//! Almost every string clove displays came from a stranger, and a terminal is
//! an interpreter. Scrubbing happens where text becomes some interpreter's
//! input, not at the source: the stored name is the torrent's actual name.
use vstd::prelude::*;
use crate::strings::chars_of;

verus! {

/// Whether a terminal would act on `c` rather than draw it: the control
/// characters (C0, `DEL`, C1), and the bidi marks, overrides and isolates,
/// which reorder the text around them.
pub open spec fn acts_on_terminal(c: char) -> bool {
    let n = c as u32;
    n <= 0x1f || 0x7f <= n <= 0x9f || n == 0x200e || n == 0x200f || 0x202a <= n <= 0x202e || 0x2066
        <= n <= 0x2069
}

/// What is shown for `c`.
pub open spec fn shown(c: char) -> char {
    if acts_on_terminal(c) {
        '.'
    } else {
        c
    }
}

/// What is shown for a text.
pub open spec fn scrubbed(s: Seq<char>) -> Seq<char> {
    Seq::new(s.len(), |i: int| shown(s[i]))
}

/// The first `max` characters shown, and an ellipsis if there are more.
pub open spec fn scrubbed_bounded(s: Seq<char>, max: nat) -> Seq<char> {
    if s.len() > max {
        scrubbed(s.take(max as int)).push('\u{2026}')
    } else {
        scrubbed(s)
    }
}

/// Replace every character that a terminal would act on rather than draw.
///
/// Replaced rather than removed: a name that silently loses characters is one
/// an operator cannot match against what they expected.
pub fn scrub(text: &str) -> (r: String)
    ensures
        r@ == scrubbed(text@),
{
    let chars = chars_of(text);
    let mut out: String = String::new();
    let mut i: usize = 0;
    while i < chars.len()
        invariant
            i <= chars.len(),
            chars@ == text@,
            out@ =~= scrubbed(text@.take(i as int)),
        decreases chars.len() - i,
    {
        out.push(scrub_char(chars[i]));
        i = i + 1;
    }
    proof {
        assert(text@.take(i as int) =~= text@);
    }
    out
}

/// [`scrub`], and no more than `max_chars` characters of it, with an ellipsis
/// when something was cut.
///
/// The bound matters for anything a *remote* party sizes: a tracker does not
/// get to decide how much of an operator's log it occupies.
pub fn scrub_bounded(text: &str, max_chars: usize) -> (r: String)
    ensures
        r@ == scrubbed_bounded(text@, max_chars as nat),
{
    let chars = chars_of(text);
    let mut out: String = String::new();
    let mut i: usize = 0;
    while i < chars.len() && i < max_chars
        invariant
            i <= chars.len(),
            i <= max_chars,
            chars@ == text@,
            out@ =~= scrubbed(text@.take(i as int)),
        decreases chars.len() - i,
    {
        out.push(scrub_char(chars[i]));
        i = i + 1;
    }
    proof {
        if text@.len() <= max_chars {
            assert(text@.take(i as int) =~= text@);
        }
    }
    if chars.len() > max_chars {
        out.push('\u{2026}');
    }
    out
}

/// One character's worth of [`scrub`].
fn scrub_char(c: char) -> (r: char)
    ensures
        r == shown(c),
{
    let n: u32 = c as u32;
    if n <= 0x1f || (0x7f <= n && n <= 0x9f) || n == 0x200e || n == 0x200f || (0x202a <= n && n
        <= 0x202e) || (0x2066 <= n && n <= 0x2069) {
        '.'
    } else {
        c
    }
}

/// Nothing that a terminal acts on is left after scrubbing, the text keeps its
/// length, and text without such characters is untouched.
pub proof fn law_scrubbed_text_is_inert(s: Seq<char>)
    ensures
        scrubbed(s).len() == s.len(),
        forall|i: int| 0 <= i < s.len() ==> !acts_on_terminal(#[trigger] scrubbed(s)[i]),
        (forall|i: int| 0 <= i < s.len() ==> !acts_on_terminal(#[trigger] s[i])) ==> scrubbed(s)
            == s,
        scrubbed(scrubbed(s)) == scrubbed(s),
{
    if forall|i: int| 0 <= i < s.len() ==> !acts_on_terminal(#[trigger] s[i]) {
        assert(scrubbed(s) =~= s);
    }
    assert(scrubbed(scrubbed(s)) =~= scrubbed(s));
}

/// Bounded text is never longer than its bound and the ellipsis, and nothing
/// in it acts on a terminal.
pub proof fn law_bounded_text_is_short_and_inert(s: Seq<char>, max: nat)
    ensures
        scrubbed_bounded(s, max).len() <= max + 1,
        forall|i: int|
            0 <= i < scrubbed_bounded(s, max).len() ==> !acts_on_terminal(
                #[trigger] scrubbed_bounded(s, max)[i],
            ),
{
}

/// What is shown: a point for each control character (up to 1F, and 7F to 9F),
/// each bidi mark (200E, 200F), override (202A to 202E) and isolate (2066 to
/// 2069), and every other character as it is. What is cut off after `max`
/// characters is shown as one ellipsis.
pub proof fn law_what_is_shown(s: Seq<char>, max: nat, i: int)
    requires
        0 <= i < s.len(),
    ensures
        ({
            let n = s[i] as u32;
            let acted_on = n <= 0x1f || 0x7f <= n <= 0x9f || n == 0x200e || n == 0x200f || 0x202a
                <= n <= 0x202e || 0x2066 <= n <= 0x2069;
            let there = if acted_on {
                '.'
            } else {
                s[i]
            };
            &&& scrubbed(s)[i] == there
            &&& i < max ==> scrubbed_bounded(s, max)[i] == there
        }),
        s.len() <= max ==> scrubbed_bounded(s, max).len() == s.len(),
        s.len() > max ==> scrubbed_bounded(s, max).len() == max + 1 && scrubbed_bounded(
            s,
            max,
        ).last() as u32 == 0x2026,
{
}

} // verus!
