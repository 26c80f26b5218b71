//! Scanning text: finding, splitting, trimming, and reading numbers, on runs
//! of characters.
use vstd::prelude::*;
#[allow(unused_imports)]
use vstd::string::*;
use crate::strings::chars_of;

verus! {

/// Whether `p` stands in `s` at position `i`.
pub open spec fn occurs(s: Seq<char>, p: Seq<char>, i: int) -> bool {
    0 <= i && i + p.len() <= s.len() && s.subrange(i, i + p.len()) == p
}

/// The first position at or after `i` where `p` stands, or the length of `s`.
pub open spec fn find(s: Seq<char>, p: Seq<char>, i: int) -> int
    decreases s.len() - i,
{
    if i < 0 || i + p.len() > s.len() || i >= s.len() {
        s.len() as int
    } else if occurs(s, p, i) {
        i
    } else {
        find(s, p, i + 1)
    }
}

/// The parts of `s` between the occurrences of `p`.
pub open spec fn split(s: Seq<char>, p: Seq<char>) -> Seq<Seq<char>>
    decreases s.len(),
{
    let i = find(s, p, 0);
    if p.len() == 0 || i < 0 || i + p.len() > s.len() {
        seq![s]
    } else {
        seq![s.take(i)] + split(s.skip(i + p.len()), p)
    }
}

/// What stands before and after the first occurrence of `p`.
pub open spec fn split_once(s: Seq<char>, p: Seq<char>) -> Option<(Seq<char>, Seq<char>)> {
    let i = find(s, p, 0);
    if i + p.len() > s.len() {
        None
    } else {
        Some((s.take(i), s.skip(i + p.len())))
    }
}

/// Whether `s` starts with `p`.
pub open spec fn starts(s: Seq<char>, p: Seq<char>) -> bool {
    p.len() <= s.len() && s.take(p.len() as int) == p
}

/// Whether `s` ends with `p`.
pub open spec fn ends(s: Seq<char>, p: Seq<char>) -> bool {
    p.len() <= s.len() && s.skip(s.len() - p.len()) == p
}

/// Whether `c` is white space: the characters with that property.
pub open spec fn is_space(c: char) -> bool {
    let n = c as u32;
    (9 <= n <= 13) || n == 0x20 || n == 0x85 || n == 0xa0 || n == 0x1680 || (0x2000 <= n <= 0x200a)
        || n == 0x2028 || n == 0x2029 || n == 0x202f || n == 0x205f || n == 0x3000
}

/// `s` without the white space it starts with.
pub open spec fn trim_start(s: Seq<char>) -> Seq<char>
    decreases s.len(),
{
    if s.len() > 0 && is_space(s[0]) {
        trim_start(s.skip(1))
    } else {
        s
    }
}

/// `s` without the white space it ends with.
pub open spec fn trim_end(s: Seq<char>) -> Seq<char>
    decreases s.len(),
{
    if s.len() > 0 && is_space(s.last()) {
        trim_end(s.drop_last())
    } else {
        s
    }
}

/// `s` without the white space around it.
pub open spec fn trim(s: Seq<char>) -> Seq<char> {
    trim_end(trim_start(s))
}

/// The lower-case form of an ASCII letter; any other character as it is.
pub open spec fn lower(c: char) -> char {
    if 'A' <= c <= 'Z' {
        (c as u32 + 32) as char
    } else {
        c
    }
}

/// `s` with its ASCII letters in lower case.
pub open spec fn lowered_text(s: Seq<char>) -> Seq<char> {
    Seq::new(s.len(), |i: int| lower(s[i]))
}

/// Whether every character is a decimal digit.
pub open spec fn all_digits(s: Seq<char>) -> bool {
    forall|i: int| 0 <= i < s.len() ==> '0' <= #[trigger] s[i] <= '9'
}

/// The number that digits stand for.
pub open spec fn dec_value(s: Seq<char>) -> nat
    decreases s.len(),
{
    if s.len() == 0 {
        0
    } else {
        dec_value(s.drop_last()) * 10 + (s.last() as u32 - 48) as nat
    }
}

/// The number a text spells, if it is no more than `max`: digits, with an
/// optional plus sign before them.
pub open spec fn number_in(s: Seq<char>, max: nat) -> Option<nat> {
    let d = if s.len() > 0 && s[0] == '+' {
        s.skip(1)
    } else {
        s
    };
    if d.len() > 0 && all_digits(d) && dec_value(d) <= max {
        Some(dec_value(d))
    } else {
        None
    }
}

/// The texts that vectors of characters hold.
pub open spec fn texts(v: Seq<Vec<char>>) -> Seq<Seq<char>> {
    Seq::new(v.len(), |i: int| v[i]@)
}

// ---------------------------------------------------------------------------

/// Where a search stops: at an occurrence, with none before it, or nowhere.
pub proof fn lemma_find(s: Seq<char>, p: Seq<char>, i: int)
    requires
        0 <= i <= s.len(),
        p.len() > 0,
    ensures
        i <= find(s, p, i) <= s.len(),
        find(s, p, i) < s.len() ==> occurs(s, p, find(s, p, i)),
        find(s, p, i) < s.len() <==> find(s, p, i) + p.len() <= s.len(),
        forall|j: int| i <= j < find(s, p, i) ==> !occurs(s, p, j),
    decreases s.len() - i,
{
    if i + p.len() <= s.len() && i < s.len() && !occurs(s, p, i) {
        lemma_find(s, p, i + 1);
    }
}

/// The characters from `from` up to `to`, copied.
pub fn copy_chars(s: &[char], from: usize, to: usize) -> (r: Vec<char>)
    requires
        from <= to <= s@.len(),
    ensures
        r@ == s@.subrange(from as int, to as int),
{
    let mut out: Vec<char> = Vec::new();
    let mut i: usize = from;
    while i < to
        invariant
            from <= i <= to <= s.len(),
            out@ =~= s@.subrange(from as int, i as int),
        decreases to - i,
    {
        out.push(s[i]);
        i = i + 1;
    }
    out
}

/// Whether `p` stands in `s` at position `i`.
pub fn occurs_at(s: &[char], p: &[char], i: usize) -> (r: bool)
    requires
        i <= s@.len(),
    ensures
        r == occurs(s@, p@, i as int),
{
    if p.len() > s.len() - i {
        return false;
    }
    let mut k: usize = 0;
    while k < p.len()
        invariant
            k <= p.len(),
            i + p.len() <= s.len(),
            forall|j: int| 0 <= j < k ==> #[trigger] p@[j] == s@[i + j],
        decreases p.len() - k,
    {
        if s[i + k] != p[k] {
            proof {
                assert(s@.subrange(i as int, i + p@.len())[k as int] != p@[k as int]);
            }
            return false;
        }
        k = k + 1;
    }
    proof {
        assert(s@.subrange(i as int, i + p@.len()) =~= p@);
    }
    true
}

/// The first position at or after `from` where `p` stands, or the length.
pub fn find_in(s: &[char], p: &[char], from: usize) -> (i: usize)
    requires
        from <= s@.len(),
        p@.len() > 0,
    ensures
        i == find(s@, p@, from as int),
        from <= i <= s@.len(),
{
    let mut i: usize = from;
    while i < s.len() && p.len() <= s.len() - i
        invariant
            from <= i <= s@.len(),
            p@.len() > 0,
            find(s@, p@, from as int) == find(s@, p@, i as int),
        decreases s.len() - i,
    {
        if occurs_at(s, p, i) {
            return i;
        }
        i = i + 1;
    }
    s.len()
}

/// The parts of `s` between the occurrences of `p`.
pub fn split_on(s: &[char], p: &[char]) -> (parts: Vec<Vec<char>>)
    requires
        p@.len() > 0,
    ensures
        texts(parts@) == split(s@, p@),
        parts@.len() > 0,
{
    let mut parts: Vec<Vec<char>> = Vec::new();
    let mut from: usize = 0;
    proof {
        assert(s@.skip(0) =~= s@);
        assert(texts(parts@) + split(s@, p@) =~= split(s@, p@));
    }
    loop
        invariant
            from <= s@.len(),
            p@.len() > 0,
            split(s@, p@) == texts(parts@) + split(s@.skip(from as int), p@),
        decreases s@.len() - from,
    {
        let ghost rest = s@.skip(from as int);
        let i: usize = find_in(s, p, from);
        proof {
            lemma_find(s@, p@, from as int);
            lemma_find_skip(s@, p@, from as int, from as int);
            lemma_find(rest, p@, 0);
        }
        let ghost had = texts(parts@);
        if i >= s.len() {
            let part = copy_chars(s, from, s.len());
            let ghost t = part@;
            parts.push(part);
            proof {
                assert(t =~= rest);
                assert(texts(parts@) =~= had.push(t));
                assert(texts(parts@) =~= had + seq![t]);
            }
            return parts;
        }
        let part = copy_chars(s, from, i);
        let ghost t = part@;
        parts.push(part);
        proof {
            assert(t =~= rest.take(i - from));
            assert(rest.skip(i - from + p@.len()) =~= s@.skip(i + p@.len()));
            assert(split(rest, p@) == seq![t] + split(s@.skip(i + p@.len()), p@));
            assert(texts(parts@) =~= had.push(t));
            assert(had + (seq![t] + split(s@.skip(i + p@.len()), p@)) =~= had.push(t) + split(
                s@.skip(i + p@.len()),
                p@,
            ));
        }
        from = i + p.len();
    }
}

/// Searching a tail finds what searching the whole from there finds.
pub proof fn lemma_find_skip(s: Seq<char>, p: Seq<char>, from: int, i: int)
    requires
        0 <= from <= i <= s.len(),
    ensures
        find(s.skip(from), p, i - from) == find(s, p, i) - from,
    decreases s.len() - i,
{
    let t = s.skip(from);
    if i + p.len() <= s.len() && i < s.len() {
        assert(t.subrange(i - from, i - from + p.len()) =~= s.subrange(i, i + p.len()));
        if !occurs(s, p, i) {
            lemma_find_skip(s, p, from, i + 1);
        }
    }
}

/// What stands before and after the first occurrence of `p`.
pub fn split_at_first(s: &[char], p: &[char]) -> (r: Option<(Vec<char>, Vec<char>)>)
    requires
        p@.len() > 0,
    ensures
        match r {
            Some((a, b)) => split_once(s@, p@) == Some((a@, b@)),
            None => split_once(s@, p@) is None,
        },
{
    let i: usize = find_in(s, p, 0);
    proof {
        lemma_find(s@, p@, 0);
    }
    if i >= s.len() {
        return None;
    }
    let a = copy_chars(s, 0, i);
    let b = copy_chars(s, i + p.len(), s.len());
    proof {
        assert(a@ =~= s@.take(i as int));
        assert(b@ =~= s@.skip(i + p@.len()));
    }
    Some((a, b))
}

/// Whether `s` starts with `p`.
pub fn starts_with(s: &[char], p: &[char]) -> (r: bool)
    ensures
        r == starts(s@, p@),
{
    if p.len() > s.len() {
        return false;
    }
    proof {
        assert(s@.subrange(0, p@.len() as int) =~= s@.take(p@.len() as int));
    }
    occurs_at(s, p, 0)
}

/// Whether `s` ends with `p`.
pub fn ends_with(s: &[char], p: &[char]) -> (r: bool)
    ensures
        r == ends(s@, p@),
{
    if p.len() > s.len() {
        return false;
    }
    proof {
        assert(s@.subrange(s@.len() - p@.len(), s@.len() as int) =~= s@.skip(s@.len() - p@.len()));
    }
    occurs_at(s, p, s.len() - p.len())
}

/// Whether some character is `c`.
pub fn contains_char(s: &[char], c: char) -> (r: bool)
    ensures
        r == s@.contains(c),
{
    let mut i: usize = 0;
    while i < s.len()
        invariant
            i <= s.len(),
            forall|j: int| 0 <= j < i ==> s@[j] != c,
        decreases s.len() - i,
    {
        if s[i] == c {
            proof {
                assert(s@[i as int] == c);
            }
            return true;
        }
        i = i + 1;
    }
    false
}

/// Whether `c` is white space.
pub fn is_space_char(c: char) -> (r: bool)
    ensures
        r == is_space(c),
{
    let n: u32 = c as u32;
    (9 <= n && n <= 13) || n == 0x20 || n == 0x85 || n == 0xa0 || n == 0x1680 || (0x2000 <= n && n
        <= 0x200a) || n == 0x2028 || n == 0x2029 || n == 0x202f || n == 0x205f || n == 0x3000
}

/// `s` without the white space around it.
pub fn trimmed(s: &[char]) -> (r: Vec<char>)
    ensures
        r@ == trim(s@),
{
    let mut from: usize = 0;
    proof {
        assert(s@.skip(0) =~= s@);
    }
    while from < s.len() && is_space_char(s[from])
        invariant
            from <= s@.len(),
            trim_start(s@) == trim_start(s@.skip(from as int)),
        decreases s.len() - from,
    {
        proof {
            assert(s@.skip(from as int).skip(1) =~= s@.skip(from as int + 1));
        }
        from = from + 1;
    }
    let ghost t = s@.skip(from as int);
    let mut to: usize = s.len();
    proof {
        assert(t =~= s@.subrange(from as int, to as int));
    }
    while to > from && is_space_char(s[to - 1])
        invariant
            from <= to <= s@.len(),
            trim_end(t) == trim_end(s@.subrange(from as int, to as int)),
        decreases to,
    {
        proof {
            assert(s@.subrange(from as int, to as int).drop_last() =~= s@.subrange(
                from as int,
                to - 1,
            ));
            assert(s@.subrange(from as int, to as int).last() == s@[to - 1]);
        }
        to = to - 1;
    }
    proof {
        if to > from {
            assert(s@.subrange(from as int, to as int).last() == s@[to - 1]);
        }
    }
    copy_chars(s, from, to)
}

/// One ASCII letter in lower case.
pub fn lower_char(c: char) -> (r: char)
    ensures
        r == lower(c),
{
    let n: u32 = c as u32;
    if 65 <= n && n <= 90 {
        (n as u8 + 32) as char
    } else {
        c
    }
}

/// `s` with its ASCII letters in lower case.
pub fn lowercased(s: &[char]) -> (r: Vec<char>)
    ensures
        r@ == lowered_text(s@),
{
    let mut out: Vec<char> = Vec::new();
    let mut i: usize = 0;
    while i < s.len()
        invariant
            i <= s.len(),
            out@ =~= lowered_text(s@.take(i as int)),
        decreases s.len() - i,
    {
        out.push(lower_char(s[i]));
        i = i + 1;
    }
    proof {
        assert(s@.take(i as int) =~= s@);
    }
    out
}

/// Appending digits never lowers the number.
pub proof fn lemma_dec_monotone(s: Seq<char>, i: int)
    requires
        0 <= i <= s.len(),
        all_digits(s),
    ensures
        dec_value(s.take(i)) <= dec_value(s),
    decreases s.len() - i,
{
    if i < s.len() {
        assert(s.take(i + 1).drop_last() =~= s.take(i));
        lemma_dec_monotone(s, i + 1);
    } else {
        assert(s.take(i) =~= s);
    }
}

/// The number a text spells, if it is no more than `max`.
pub fn read_number(s: &[char], max: u64) -> (r: Option<u64>)
    ensures
        match r {
            Some(n) => number_in(s@, max as nat) == Some(n as nat),
            None => number_in(s@, max as nat) is None,
        },
{
    let start: usize = if s.len() > 0 && s[0] == '+' {
        1
    } else {
        0
    };
    let ghost d = s@.skip(start as int);
    proof {
        assert(start == 0 ==> d =~= s@);
    }
    if start >= s.len() {
        return None;
    }
    let mut n: u64 = 0;
    let mut i: usize = start;
    proof {
        assert(d.take(0) =~= Seq::empty());
        assert(d[0] == s@[start as int]);
    }
    while i < s.len()
        invariant
            start <= i <= s.len(),
            start < s.len(),
            d == s@.skip(start as int),
            number_in(s@, max as nat) == (if d.len() > 0 && all_digits(d) && dec_value(d) <= max {
                Some(dec_value(d))
            } else {
                None
            }),
            forall|j: int| 0 <= j < i - start ==> '0' <= #[trigger] d[j] <= '9',
            n == dec_value(d.take(i - start)),
            n <= max,
        decreases s.len() - i,
    {
        let ch: char = s[i];
        let c: u32 = ch as u32;
        proof {
            assert(d[i - start] == s@[i as int]);
            assert(d.take(i - start + 1).drop_last() =~= d.take(i - start));
            if all_digits(d) {
                lemma_dec_monotone(d, i - start + 1);
            }
        }
        if ch < '0' || ch > '9' {
            proof {
                assert(!('0' <= d[i - start] <= '9'));
            }
            return None;
        }
        proof {
            assert('0' <= d[i - start] <= '9');
        }
        let digit: u64 = (c - 48) as u64;
        if n > u64::MAX / 10 {
            return None;
        }
        let ten: u64 = n * 10;
        if ten > u64::MAX - digit {
            return None;
        }
        if ten + digit > max {
            return None;
        }
        n = ten + digit;
        i = i + 1;
    }
    proof {
        assert(d.take(i - start) =~= d);
    }
    Some(n)
}

/// Whether `s` is the text `t`.
pub fn is_text(s: &[char], t: &str) -> (r: bool)
    ensures
        r == (s@ == t@),
{
    let c = chars_of(t);
    crate::strings::chars_eq(s, c.as_slice())
}

/// The first position that holds a character.
pub proof fn lemma_find_char(s: Seq<char>, c: char)
    ensures
        0 <= find(s, seq![c], 0) <= s.len(),
        find(s, seq![c], 0) < s.len() ==> s[find(s, seq![c], 0)] == c,
        forall|j: int| 0 <= j < find(s, seq![c], 0) ==> #[trigger] s[j] != c,
{
    let p = seq![c];
    lemma_find(s, p, 0);
    let i = find(s, p, 0);
    if i < s.len() {
        assert(s.subrange(i, i + 1)[0] == c);
    }
    assert forall|j: int| 0 <= j < i implies #[trigger] s[j] != c by {
        if s[j] == c {
            assert(s.subrange(j, j + 1) =~= p);
            assert(occurs(s, p, j));
        }
    }
}

/// A position that holds a character, and none before it does, is the first.
pub proof fn lemma_found_char(s: Seq<char>, c: char, i: int)
    requires
        0 <= i <= s.len(),
        i < s.len() ==> s[i] == c,
        forall|j: int| 0 <= j < i ==> #[trigger] s[j] != c,
    ensures
        find(s, seq![c], 0) == i,
{
    lemma_find_char(s, c);
    let k = find(s, seq![c], 0);
    if k < i {
        assert(s[k] != c);
    }
    if i < k {
        assert(s[i] != c);
    }
}

/// A separator between two texts parts what is split on both sides of it.
pub proof fn lemma_split_joined(x: Seq<char>, c: char, y: Seq<char>)
    ensures
        split(x + seq![c] + y, seq![c]) == split(x, seq![c]) + split(y, seq![c]),
    decreases x.len(),
{
    let p = seq![c];
    let s = x + p + y;
    let i = find(x, p, 0);
    lemma_find_char(x, c);
    if i < x.len() {
        assert(s[i] == c);
        assert forall|j: int| 0 <= j < i implies #[trigger] s[j] != c by {
            assert(x[j] != c);
        }
        lemma_found_char(s, c, i);
        lemma_split_joined(x.skip(i + 1), c, y);
        assert(s.skip(i + 1) =~= x.skip(i + 1) + p + y);
        assert(s.take(i) =~= x.take(i));
        assert(split(s, p) =~= split(x, p) + split(y, p));
    } else {
        assert(s[i] == c);
        assert forall|j: int| 0 <= j < i implies #[trigger] s[j] != c by {
            assert(x[j] != c);
        }
        lemma_found_char(s, c, i);
        assert(s.take(i) =~= x);
        assert(s.skip(i + 1) =~= y);
        assert(split(s, p) =~= split(x, p) + split(y, p));
    }
}

/// A text without the separator is one part.
pub proof fn lemma_split_whole(s: Seq<char>, c: char)
    requires
        !s.contains(c),
    ensures
        split(s, seq![c]) == seq![s],
{
    assert forall|j: int| 0 <= j < s.len() implies #[trigger] s[j] != c by {}
    lemma_found_char(s, c, s.len() as int);
}

// ---------------------------------------------------------------------------
// What the parts are.

/// A text cut at a character is what stands before its first occurrence and
/// what stands after it; a text without it is not cut.
pub proof fn law_cut_at_the_first(s: Seq<char>, c: char)
    ensures
        match split_once(s, seq![c]) {
            Some((a, b)) => s == a + seq![c] + b && !a.contains(c),
            None => !s.contains(c),
        },
{
    lemma_find_char(s, c);
    let i = find(s, seq![c], 0);
    if i < s.len() {
        assert(s =~= s.take(i) + seq![c] + s.skip(i + 1));
    }
}

/// A key without the character, the character, and a value are cut into the
/// key and the value.
pub proof fn law_key_and_value_are_cut(key: Seq<char>, c: char, value: Seq<char>)
    requires
        !key.contains(c),
    ensures
        split_once(key + seq![c] + value, seq![c]) == Some((key, value)),
{
    let s = key + seq![c] + value;
    assert forall|j: int| 0 <= j < key.len() implies #[trigger] s[j] != c by {
        assert(s[j] == key[j]);
    }
    lemma_found_char(s, c, key.len() as int);
    assert(s.take(key.len() as int) =~= key);
    assert(s.skip(key.len() as int + 1) =~= value);
}

proof fn lemma_trim_start(s: Seq<char>) -> (i: int)
    ensures
        0 <= i <= s.len(),
        trim_start(s) == s.skip(i),
        forall|j: int| 0 <= j < i ==> is_space(#[trigger] s[j]),
        i < s.len() ==> !is_space(s[i]),
    decreases s.len(),
{
    if s.len() > 0 && is_space(s[0]) {
        let i = lemma_trim_start(s.skip(1));
        assert(s.skip(1).skip(i) =~= s.skip(i + 1));
        assert forall|j: int| 0 <= j < i + 1 implies is_space(#[trigger] s[j]) by {
            if j > 0 {
                assert(s.skip(1)[j - 1] == s[j]);
            }
        }
        i + 1
    } else {
        assert(s.skip(0) =~= s);
        0
    }
}

proof fn lemma_trim_end(s: Seq<char>) -> (i: int)
    ensures
        0 <= i <= s.len(),
        trim_end(s) == s.take(i),
        forall|j: int| i <= j < s.len() ==> is_space(#[trigger] s[j]),
        i > 0 ==> !is_space(s[i - 1]),
    decreases s.len(),
{
    if s.len() > 0 && is_space(s.last()) {
        let i = lemma_trim_end(s.drop_last());
        assert(s.drop_last().take(i) =~= s.take(i));
        assert forall|j: int| i <= j < s.len() implies is_space(#[trigger] s[j]) by {
            if j < s.len() - 1 {
                assert(s.drop_last()[j] == s[j]);
            }
        }
        i
    } else {
        assert(s.take(s.len() as int) =~= s);
        s.len() as int
    }
}

/// Trimming takes the white space off both ends and nothing else: what is left
/// neither starts nor ends with it.
pub proof fn law_trimmed_text(s: Seq<char>) -> (cut: (int, int))
    ensures
        0 <= cut.0 <= cut.1 <= s.len(),
        trim(s) == s.subrange(cut.0, cut.1),
        forall|j: int| 0 <= j < cut.0 || cut.1 <= j < s.len() ==> is_space(#[trigger] s[j]),
        cut.0 < cut.1 ==> !is_space(s[cut.0]) && !is_space(s[cut.1 - 1]),
        is_space(' ') && is_space('\t') && is_space('\n') && is_space('\r'),
        forall|c: char| '!' <= c <= '~' ==> !is_space(c),
{
    let i = lemma_trim_start(s);
    let t = s.skip(i);
    let k = lemma_trim_end(t);
    assert(t.take(k) =~= s.subrange(i, i + k));
    assert forall|j: int| 0 <= j < i || i + k <= j < s.len() implies is_space(#[trigger] s[j]) by {
        if j >= i {
            assert(t[j - i] == s[j]);
        }
    }
    if k > 0 {
        assert(t[k - 1] == s[i + k - 1]);
        if is_space(s[i]) {
            assert(i == s.len());
        }
    }
    (i, i + k)
}

/// Lower case is 32 further on, for the letters from `A` to `Z`; any other
/// character stays.
pub proof fn law_lower_case(s: Seq<char>)
    ensures
        lowered_text(s).len() == s.len(),
        forall|i: int|
            0 <= i < s.len() ==> #[trigger] lowered_text(s)[i] as u32 == (if 65 <= s[i] as u32
                <= 90 {
                s[i] as u32 + 32
            } else {
                s[i] as u32 as int
            }),
{
}

pub proof fn lemma_dec_value(n: nat)
    ensures
        dec_value(crate::decimal::decimal_text(n)) == n,
        all_digits(crate::decimal::decimal_text(n)),
        crate::decimal::decimal_text(n).len() >= 1,
    decreases n,
{
    crate::decimal::lemma_decimal(n);
    let d = crate::decimal::decimal(n);
    let t = crate::decimal::decimal_text(n);
    assert forall|i: int| 0 <= i < t.len() implies '0' <= #[trigger] t[i] <= '9' by {
        assert(crate::decimal::is_digit(d[i]));
    }
    if n < 10 {
        assert(t.drop_last() =~= Seq::empty());
        assert(dec_value(t.drop_last()) == 0);
    } else {
        lemma_dec_value(n / 10);
        assert(t.drop_last() =~= crate::decimal::decimal_text(n / 10));
    }
}

/// A number is read from its decimal notation if it is no more than the limit,
/// with or without a plus sign before it; what is not digits is no number.
pub proof fn law_numbers_are_read(n: nat, max: nat, s: Seq<char>)
    ensures
        number_in(crate::decimal::decimal_text(n), max) == (if n <= max {
            Some(n)
        } else {
            None
        }),
        number_in(seq!['+'] + crate::decimal::decimal_text(n), max) == (if n <= max {
            Some(n)
        } else {
            None
        }),
        s.len() == 0 ==> number_in(s, max) is None,
        (exists|i: int|
            0 < i < s.len() && !(48 <= #[trigger] s[i] as u32 <= 57)) ==> number_in(s, max) is None,
        s.len() > 0 && s[0] != '+' && !(48 <= s[0] as u32 <= 57) ==> number_in(s, max) is None,
{
    lemma_dec_value(n);
    let t = crate::decimal::decimal_text(n);
    assert('0' <= t[0] <= '9');
    assert((seq!['+'] + t).skip(1) =~= t);
    if exists|i: int| 0 < i < s.len() && !(48 <= #[trigger] s[i] as u32 <= 57) {
        let i = choose|i: int| 0 < i < s.len() && !(48 <= #[trigger] s[i] as u32 <= 57);
        if s[0] == '+' {
            assert(s.skip(1)[i - 1] == s[i]);
        }
    }
}

} // verus!
