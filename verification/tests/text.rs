use clove_core::text::{scrub, scrub_bounded};

#[test]
fn control_characters_go() {
    assert_eq!(scrub("a\tb\nc\r\n"), "a.b.c..");
    assert_eq!(scrub("\u{1b}[2J"), ".[2J");
    assert_eq!(scrub("\u{1b}]0;title\u{7}"), ".]0;title.");
    // C1 and DEL are controls too, and are easy to forget.
    for c in ['\u{0}', '\u{7f}', '\u{80}', '\u{9b}'] {
        assert_eq!(scrub(&c.to_string()), ".", "{c:?} survived");
    }
}

#[test]
fn bidi_overrides_go() {
    // The classic filename spoof: RLO makes this render as "safe.exe.gnp".
    assert_eq!(scrub("safe\u{202e}gnp.exe"), "safe.gnp.exe");
    for c in [
        '\u{200e}', '\u{200f}', '\u{202a}', '\u{202b}', '\u{202c}', '\u{202d}', '\u{202e}',
        '\u{2066}', '\u{2067}', '\u{2068}', '\u{2069}',
    ] {
        assert_eq!(scrub(&c.to_string()), ".", "{c:?} survived");
    }
}

#[test]
fn ordinary_text_is_untouched() {
    for ok in ["plain-name_1.0.iso", "café", "日本語のファイル", "Ünïcödé", "a b c", ""] {
        assert_eq!(scrub(ok), ok, "{ok:?} was altered");
    }
}

#[test]
fn bounded_truncates_and_says_so() {
    assert_eq!(scrub_bounded("short", 10), "short");
    // Exactly at the bound is not truncated, so no ellipsis.
    assert_eq!(scrub_bounded("abcde", 5), "abcde");
    assert_eq!(scrub_bounded("abcdef", 5), "abcde…");
    // Characters, not bytes: cutting mid-character would panic on a slice.
    let wide = "é".repeat(10);
    assert_eq!(scrub_bounded(&wide, 10), wide);
    assert_eq!(scrub_bounded(&wide, 4), "ééét…".replace('t', "é"));
    // Scrubbing still applies to what survives the cut.
    assert_eq!(scrub_bounded("a\u{1b}bcdef", 3), "a.b…");
    // A zero bound is degenerate but must not panic.
    assert_eq!(scrub_bounded("abc", 0), "…");
    assert_eq!(scrub_bounded("", 0), "");
}
