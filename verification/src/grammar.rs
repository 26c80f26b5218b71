//! What the two notations take and what they refuse, symbol by symbol.
use vstd::prelude::*;
#[allow(unused_imports)]
use vstd::string::*;
#[allow(unused_imports)]
use vstd::utf8::*;
use crate::bencode::{self, ErrorKind, Tree};
use crate::decimal::{decimal_text, is_digit, lemma_digit_run};
use crate::json::{
    self, blanks_end, digits_end, escaped, escaped_text, fields_at, fields_text, hex_at, items_at,
    items_text, number_at, parsed, quoted, string_at, text_of, value_at, word_at, Json, ParseError,
    Value,
};
use crate::scan::dec_value;

verus! {

// ---------------------------------------------------------------------------
// Bencode.

/// An integer has one spelling: at least one digit, no zero before another
/// digit, no minus before zero, and `e` right after. Any other is refused where
/// it starts.
pub proof fn law_misspelled_integers_are_refused(s: Seq<u8>, pos: int, depth: int, end: int)
    requires
        0 <= pos,
        0 <= depth < 32,
        pos + 1 < s.len() <= usize::MAX,
        s[pos] == 105,
        ({
            let from = if s[pos + 1] == 45 {
                pos + 2
            } else {
                pos + 1
            };
            &&& from <= end < s.len()
            &&& forall|i: int| from <= i < end ==> 48 <= #[trigger] s[i] <= 57
            &&& !(48 <= s[end] <= 57)
            &&& s[end] != 101 || end == from || (end - from > 1 && s[from] == 48) || (from == pos
                + 2 && end == from + 1 && s[from] == 48)
        }),
    ensures
        bencode::value_at(s, pos, depth) matches Err(e) && e.offset == pos && e.kind
            == ErrorKind::BadInt,
{
    let from = if s[pos + 1] == 45 {
        pos + 2
    } else {
        pos + 1
    };
    assert forall|i: int| from <= i < end implies is_digit(#[trigger] s[i]) by {}
    lemma_digit_run(s, from, end);
    if end == from + 1 && s[from] == 48 {
        let d = s.subrange(from, end);
        assert(d.drop_last() =~= Seq::empty());
        assert(crate::decimal::digits_value(d.drop_last()) == 0);
        assert(crate::decimal::digits_value(d) == 0);
    }
}

/// A length has one spelling too, and a colon right after; and as many bytes as
/// it says must follow.
pub proof fn law_misspelled_lengths_are_refused(s: Seq<u8>, pos: int, depth: int, end: int)
    requires
        0 <= pos < end < s.len() <= usize::MAX,
        0 <= depth < 32,
        forall|i: int| pos <= i < end ==> 48 <= #[trigger] s[i] <= 57,
        !(48 <= s[end] <= 57),
    ensures
        s[end] != 58 || (end - pos > 1 && s[pos] == 48) ==> (bencode::value_at(
            s,
            pos,
            depth,
        ) matches Err(e) && e.offset == pos && e.kind == ErrorKind::BadLength),
        s[end] == 58 && (end - pos == 1 || s[pos] != 48) && crate::decimal::digits_value(
            s.subrange(pos, end),
        ) <= usize::MAX ==> ({
            let n = crate::decimal::digits_value(s.subrange(pos, end));
            let r = bencode::value_at(s, pos, depth);
            if end + 1 + n > s.len() {
                r matches Err(e) && e.offset == end + 1 && e.kind == ErrorKind::Truncated
            } else {
                r == Ok::<(Tree, int), bencode::Error>(
                    (Tree::Bytes(s.subrange(end + 1, end + 1 + n)), end + 1 + n),
                )
            }
        }),
{
    assert forall|i: int| pos <= i < end implies is_digit(#[trigger] s[i]) by {}
    assert(48 <= s[pos] <= 57);
    lemma_digit_run(s, pos, end);
}

/// A value starts with `i`, `l`, `d` or a digit; is nested in fewer than 32
/// others; and nothing follows the outermost.
pub proof fn law_what_a_value_starts_with(s: Seq<u8>, pos: int, depth: int)
    requires
        0 <= pos <= s.len() <= usize::MAX,
    ensures
        depth >= 32 ==> (bencode::value_at(s, pos, depth) matches Err(e) && e.offset == pos
            && e.kind == ErrorKind::TooDeep),
        depth < 32 && pos == s.len() ==> (bencode::value_at(s, pos, depth) matches Err(e)
            && e.offset == pos && e.kind == ErrorKind::Truncated),
        depth < 32 && pos < s.len() && s[pos] != 105 && s[pos] != 108 && s[pos] != 100 && !(48
            <= s[pos] <= 57) ==> (bencode::value_at(s, pos, depth) matches Err(e) && e.offset == pos
            && e.kind == ErrorKind::BadValueStart),
        bencode::value_at(s, 0, 0) matches Ok((t, end)) ==> (0 <= end < s.len() ==> (
        bencode::decoded(s) matches Err(e) && e.offset == end && e.kind
            == ErrorKind::TrailingData)),
{
}

/// A list is its items in their order, up to an `e`; a dictionary its entries,
/// each of them a byte string and a value, up to an `e`, no key twice, in the
/// order of their keys.
pub proof fn law_containers_are_read_to_their_end(
    s: Seq<u8>,
    pos: int,
    depth: int,
    items: Seq<Tree>,
    entries: Seq<(Seq<u8>, Tree)>,
)
    requires
        0 <= pos < s.len() <= usize::MAX,
        0 <= depth < 32,
    ensures
        s[pos] == 101 ==> bencode::items_at(s, pos, depth, items) == Ok::<
            (Seq<Tree>, int),
            bencode::Error,
        >((items, pos + 1)),
        s[pos] == 101 ==> bencode::entries_at(s, pos, depth, entries) == Ok::<
            (Seq<(Seq<u8>, Tree)>, int),
            bencode::Error,
        >((entries, pos + 1)),
        s[pos] != 101 ==> (bencode::value_at(s, pos, depth) matches Ok((t, end)) ==> (pos < end
            <= s.len() ==> bencode::items_at(s, pos, depth, items) == bencode::items_at(
            s,
            end,
            depth,
            items.push(t),
        ))),
        s[pos] != 101 && !(48 <= s[pos] <= 57) ==> (bencode::entries_at(
            s,
            pos,
            depth,
            entries,
        ) matches Err(e) && e.offset == pos && e.kind == ErrorKind::BadKey),
        bencode::value_at(s, pos, depth) is Err && s[pos] != 101 ==> bencode::items_at(
            s,
            pos,
            depth,
            items,
        ) is Err,
{
}

/// An entry goes where its key belongs, if no entry has the key yet; a key that
/// comes twice is refused where it comes again.
pub proof fn law_entries_are_told_apart(
    s: Seq<u8>,
    pos: int,
    depth: int,
    entries: Seq<(Seq<u8>, Tree)>,
    key: Seq<u8>,
    mid: int,
    t: Tree,
    end: int,
)
    requires
        0 <= pos < mid < end <= s.len() <= usize::MAX,
        0 <= depth < 32,
        48 <= s[pos] <= 57,
        bencode::bytes_at(s, pos) == Ok::<(Seq<u8>, int), bencode::Error>((key, mid)),
        bencode::value_at(s, mid, depth) == Ok::<(Tree, int), bencode::Error>((t, end)),
    ensures
        ({
            let r = bencode::entries_at(s, pos, depth, entries);
            let twice = exists|i: int| 0 <= i < entries.len() && (#[trigger] entries[i]).0 == key;
            &&& twice ==> (r matches Err(e) && e.offset == pos && e.kind == ErrorKind::BadKey)
            &&& !twice ==> r == bencode::entries_at(
                s,
                end,
                depth,
                bencode::with_entry(entries, key, t),
            )
        }),
{
    assert(bencode::has_key(entries, key) <==> exists|i: int|
        0 <= i < entries.len() && (#[trigger] entries[i]).0 == key);
}

// ---------------------------------------------------------------------------
// JSON, written.

/// How each value is written: the three words, integers in decimal, a number of
/// another kind as it is spelled, a string between quotes, an array between
/// brackets, an object between braces.
pub proof fn law_json_notation(v: Value)
    ensures
        match v {
            Value::Null => text_of(v@) == "null"@,
            Value::Bool(b) => text_of(v@) == (if b {
                "true"@
            } else {
                "false"@
            }),
            Value::Int(n) => text_of(v@) == (if n < 0 {
                seq!['-'] + decimal_text((-n) as nat)
            } else {
                decimal_text(n as nat)
            }),
            Value::UInt(n) => text_of(v@) == decimal_text(n as nat),
            Value::Float(s) => text_of(v@) == s@,
            Value::Str(s) => text_of(v@) == seq!['"'] + escaped_text(s@) + seq!['"'],
            Value::Array(items) => text_of(v@) == seq!['['] + items_text(
                Seq::new(items@.len(), |i: int| items@[i]@),
            ) + seq![']'],
            Value::Object(fields) => text_of(v@) == seq!['{'] + fields_text(
                Seq::new(fields@.len(), |i: int| (fields@[i].0@, fields@[i].1@)),
            ) + seq!['}'],
        },
{
    match v {
        Value::Array(items) => {
            let a = Seq::new(items@.len(), |i: int| items@[i]@);
            let b = json::jsons(items);
            assert(v@ == Json::Array(b));
            assert(b.len() == a.len());
            assert forall|i: int| 0 <= i < a.len() implies a[i] == b[i] by {
                assert(items@[i]@ == json::json(items@[i]));
            }
            assert(a =~= b);
        },
        Value::Object(fields) => {
            let a = Seq::new(fields@.len(), |i: int| (fields@[i].0@, fields@[i].1@));
            let b = json::json_fields(fields);
            assert(v@ == Json::Object(b));
            assert(b.len() == a.len());
            assert forall|i: int| 0 <= i < a.len() implies a[i] == b[i] by {
                assert(fields@[i].1@ == json::json(fields@[i].1));
            }
            assert(a =~= b);
        },
        Value::Int(n) => {
            reveal_strlit("-");
            assert("-"@ =~= seq!['-']);
        },
        _ => {},
    }
}

/// Items stand one after the other with a comma between them; a field is its
/// name as a string, a colon and its value.
pub proof fn law_json_lists(
    items: Seq<Json>,
    v: Json,
    fields: Seq<(Seq<char>, Json)>,
    name: Seq<char>,
)
    ensures
        items_text(Seq::empty()) == Seq::<char>::empty(),
        items_text(items.push(v)) == (if items.len() == 0 {
            text_of(v)
        } else {
            items_text(items) + seq![','] + text_of(v)
        }),
        fields_text(Seq::empty()) == Seq::<char>::empty(),
        fields_text(fields.push((name, v))) == (if fields.len() == 0 {
            seq!['"'] + escaped_text(name) + seq!['"'] + seq![':'] + text_of(v)
        } else {
            fields_text(fields) + seq![','] + (seq!['"'] + escaped_text(name) + seq!['"'])
                + seq![':'] + text_of(v)
        }),
{
    assert(items.push(v).drop_last() =~= items);
    assert(fields.push((name, v)).drop_last() =~= fields);
    assert(quoted(name) == seq!['"'] + escaped_text(name) + seq!['"']);
}

/// Each character of a string is written as itself, but for a quote, a
/// backslash, and what is below the space: those have a letter behind a
/// backslash, or `u` and four hexadecimal digits in lower case.
pub proof fn law_json_escapes_written(s: Seq<char>, c: char)
    ensures
        escaped_text(Seq::empty()) == Seq::<char>::empty(),
        escaped_text(s.push(c)) == escaped_text(s) + ({
            let n = c as u32;
            let low = n % 16;
            if n == 34 {
                seq!['\\', '"']
            } else if n == 92 {
                seq!['\\', '\\']
            } else if n == 8 {
                seq!['\\', 'b']
            } else if n == 9 {
                seq!['\\', 't']
            } else if n == 10 {
                seq!['\\', 'n']
            } else if n == 12 {
                seq!['\\', 'f']
            } else if n == 13 {
                seq!['\\', 'r']
            } else if n < 32 {
                seq![
                    '\\',
                    'u',
                    '0',
                    '0',
                    (48 + n / 16) as char,
                    (if low < 10 {
                        (48 + low) as char
                    } else {
                        (87 + low) as char
                    }),
                ]
            } else {
                seq![c]
            }
        }),
{
    assert(s.push(c).drop_last() =~= s);
    assert(escaped(c).len() > 0);
}

// ---------------------------------------------------------------------------
// JSON, read.

/// Spaces, tabs and line ends are passed over, up to the first character that
/// is none.
pub proof fn law_blanks_are_passed_over(s: Seq<char>, pos: int)
    requires
        0 <= pos <= s.len(),
    ensures
        pos <= blanks_end(s, pos) <= s.len(),
        forall|i: int|
            pos <= i < blanks_end(s, pos) ==> #[trigger] s[i] == ' ' || s[i] == '\t' || s[i] == '\n'
                || s[i] == '\r',
        blanks_end(s, pos) < s.len() ==> {
            let c = s[blanks_end(s, pos)];
            c != ' ' && c != '\t' && c != '\n' && c != '\r'
        },
    decreases s.len() - pos,
{
    if pos < s.len() && json::is_blank(s[pos]) {
        law_blanks_are_passed_over(s, pos + 1);
    }
}

/// How a string is read: a quote ends it; a backslash and one of eight letters
/// stand for one character; anything else from the space on stands for itself,
/// and what is below the space is refused.
pub proof fn law_json_strings_are_read(s: Seq<char>, pos: int, seen: Seq<char>)
    requires
        0 <= pos < s.len(),
    ensures
        ({
            let r = string_at(s, pos, seen);
            let next = s[pos + 1];
            let more = |c: char| r == string_at(s, pos + 2, seen.push(c));
            &&& s[pos] == '"' ==> r == Ok::<(Seq<char>, int), ParseError>((seen, pos + 1))
            &&& s[pos] != '"' && s[pos] != '\\' && s[pos] as u32 >= 32 ==> r == string_at(
                s,
                pos + 1,
                seen.push(s[pos]),
            )
            &&& s[pos] != '"' && s[pos] != '\\' && (s[pos] as u32) < 32 ==> (r matches Err(e)
                && e.what == "control character in string"
                    && e.at == encode_utf8(s.take(pos)).len() as usize)
            &&& s[pos] == '\\' && pos + 1 < s.len() ==> {
                &&& next == '"' ==> more('"')
                &&& next == '\\' ==> more('\\')
                &&& next == '/' ==> more('/')
                &&& next == 'b' ==> more('\u{08}')
                &&& next == 'f' ==> more('\u{0C}')
                &&& next == 'n' ==> more('\n')
                &&& next == 'r' ==> more('\r')
                &&& next == 't' ==> more('\t')
                &&& next != '"' && next != '\\' && next != '/' && next != 'b' && next != 'f' && next
                    != 'n' && next != 'r' && next != 't' && next != 'u' ==> (r matches Err(e)
                    && e.what == "invalid string escape"
                    && e.at == encode_utf8(s.take(pos + 1)).len() as usize)
            }
        }),
        string_at(s, s.len() as int, seen) matches Err(e) && e.what == "unterminated string"
                    && e.at == encode_utf8(s.take(s.len() as int)).len() as usize,
{
}

/// Four hexadecimal digits stand for a number, the first worth most.
pub proof fn law_four_digits(s: Seq<char>, pos: int)
    requires
        0 <= pos,
        pos + 4 <= s.len(),
    ensures
        ({
            let is_hex = |c: char| '0' <= c <= '9' || 'a' <= c <= 'f' || 'A' <= c <= 'F';
            let digit = |c: char|
                if c <= '9' {
                    c as u32 - 48
                } else if c >= 'a' {
                    c as u32 - 87
                } else {
                    c as u32 - 55
                };
            if is_hex(s[pos]) && is_hex(s[pos + 1]) && is_hex(s[pos + 2]) && is_hex(s[pos + 3]) {
                hex_at(s, pos, 4) == Ok::<int, ParseError>(
                    ((digit(s[pos]) * 16 + digit(s[pos + 1])) * 16 + digit(s[pos + 2])) * 16
                        + digit(s[pos + 3]),
                )
            } else {
                hex_at(s, pos, 4) matches Err(e) && e.what == "expected 4 hex digits"
            }
        }),
{
    reveal_with_fuel(hex_at, 5);
}

/// `\u` and four digits stand for the character with that number; one beyond
/// the basic plane is written as two of them, each with ten of its bits. A half
/// of such a pair on its own is refused.
pub proof fn law_json_unicode_escapes(s: Seq<char>, pos: int, seen: Seq<char>, n: int, m: int)
    requires
        0 <= pos,
        pos + 6 <= s.len(),
        s[pos] == '\\',
        s[pos + 1] == 'u',
        hex_at(s, pos + 2, 4) == Ok::<int, ParseError>(n),
    ensures
        ({
            let r = string_at(s, pos, seen);
            let high = 0xd800 <= n <= 0xdbff;
            let paired = pos + 12 <= s.len() && s[pos + 6] == '\\' && s[pos + 7] == 'u' && hex_at(
                s,
                pos + 8,
                4,
            ) == Ok::<int, ParseError>(m);
            &&& !(0xd800 <= n <= 0xdfff) ==> r == string_at(s, pos + 6, seen.push(n as char))
            &&& 0xdc00 <= n <= 0xdfff ==> (r matches Err(e) && e.what == "lone low surrogate"
                    && e.at == encode_utf8(s.take(pos + 6)).len() as usize)
            &&& high && !(pos + 7 < s.len() && s[pos + 6] == '\\' && s[pos + 7] == 'u') ==> (
            r matches Err(e) && e.what == "lone high surrogate")
            &&& high && paired && 0xdc00 <= m <= 0xdfff ==> r == string_at(
                s,
                pos + 12,
                seen.push((0x1_0000 + (n - 0xd800) * 0x400 + (m - 0xdc00)) as char),
            )
            &&& high && paired && !(0xdc00 <= m <= 0xdfff) ==> (r matches Err(e) && e.what
                == "invalid low surrogate" && e.at == encode_utf8(s.take(pos + 12)).len() as usize)
        }),
{
}

proof fn lemma_digits_end(s: Seq<char>, a: int, b: int)
    requires
        0 <= a <= b <= s.len(),
        forall|i: int| a <= i < b ==> '0' <= #[trigger] s[i] <= '9',
        b == s.len() || !('0' <= s[b] <= '9'),
    ensures
        digits_end(s, a) == b,
    decreases b - a,
{
    if a < b {
        lemma_digits_end(s, a + 1, b);
    }
}

/// Digits with nothing of a fraction or an exponent behind them are an integer,
/// negative behind a minus sign: a signed one as far as 64 bits reach, else an
/// unsigned one.
pub proof fn law_json_integers_are_read(s: Seq<char>, pos: int, b: int, depth: int)
    requires
        0 <= pos < s.len(),
        ({
            let a = if s[pos] == '-' {
                pos + 1
            } else {
                pos
            };
            &&& a < b <= s.len()
            &&& forall|i: int| a <= i < b ==> '0' <= #[trigger] s[i] <= '9'
        }),
        b == s.len() || !('0' <= s[b] <= '9' || s[b] == '.' || s[b] == 'e' || s[b] == 'E'),
    ensures
        ({
            let a = if s[pos] == '-' {
                pos + 1
            } else {
                pos
            };
            let n = dec_value(s.subrange(a, b));
            let r = value_at(s, pos, depth);
            &&& s[pos] == '-' && n <= 9_223_372_036_854_775_808 ==> r == Ok::<
                (Json, int),
                ParseError,
            >((Json::Int(-n), b))
            &&& s[pos] != '-' && n <= 9_223_372_036_854_775_807 ==> r == Ok::<
                (Json, int),
                ParseError,
            >((Json::Int(n as int), b))
            &&& s[pos] != '-' && 9_223_372_036_854_775_807 < n <= 18_446_744_073_709_551_615 ==> r
                == Ok::<(Json, int), ParseError>((Json::UInt(n as int), b))
        }),
{
    let a = if s[pos] == '-' {
        pos + 1
    } else {
        pos
    };
    lemma_digits_end(s, a, b);
    assert('0' <= s[a] <= '9');
    assert(value_at(s, pos, depth) == number_at(s, pos));
}

/// What a value starts with decides what it is; what cannot start one is
/// refused, and so is what follows the outermost.
pub proof fn law_what_json_starts_with(s: Seq<char>, pos: int, depth: int)
    requires
        0 <= pos < s.len(),
        0 <= depth,
    ensures
        ({
            let c = s[pos];
            let r = value_at(s, pos, depth);
            &&& (c == '{' || c == '[') && depth >= 128 ==> (r matches Err(e) && e.what
                == "nesting too deep" && e.at == encode_utf8(s.take(pos)).len() as usize)
            &&& c == '"' ==> (match string_at(s, pos + 1, Seq::empty()) {
                Ok((t, end)) => r == Ok::<(Json, int), ParseError>((Json::Str(t), end)),
                Err(e) => r == Err::<(Json, int), ParseError>(e),
            })
            &&& c == 't' ==> r == word_at(s, pos, "true"@, Json::Bool(true))
            &&& c == 'f' ==> r == word_at(s, pos, "false"@, Json::Bool(false))
            &&& c == 'n' ==> r == word_at(s, pos, "null"@, Json::Null)
            &&& c != '{' && c != '[' && c != '"' && c != 't' && c != 'f' && c != 'n' && c != '-'
                && !('0' <= c <= '9') ==> (r matches Err(e) && e.what == "expected a JSON value"
                    && e.at == encode_utf8(s.take(pos)).len() as usize)
        }),
        value_at(s, blanks_end(s, 0), 0) matches Ok((v, end)) ==> (blanks_end(s, end) < s.len()
            ==> (parsed(s) matches Err(e) && e.what == "trailing data after JSON value"
                    && e.at == encode_utf8(s.take(blanks_end(s, end))).len() as usize)),
{
}

/// A word is read if it stands there letter for letter.
pub proof fn law_json_words_are_read(s: Seq<char>, pos: int, word: Seq<char>, v: Json)
    requires
        0 <= pos,
        pos + word.len() <= s.len(),
    ensures
        (forall|i: int| 0 <= i < word.len() ==> s[pos + i] == #[trigger] word[i]) <==> word_at(
            s,
            pos,
            word,
            v,
        ) == Ok::<(Json, int), ParseError>((v, pos + word.len())),
{
    let t = s.subrange(pos, pos + word.len());
    if forall|i: int| 0 <= i < word.len() ==> s[pos + i] == #[trigger] word[i] {
        assert(t =~= word);
    }
    if t == word {
        assert forall|i: int| 0 <= i < word.len() implies s[pos + i] == #[trigger] word[i] by {
            assert(t[i] == s[pos + i]);
        }
    }
}

/// An array is its values with a comma between them, up to a bracket; an empty
/// one has nothing between its brackets.
pub proof fn law_json_arrays_are_read(s: Seq<char>, pos: int, depth: int, seen: Seq<Json>)
    requires
        0 <= pos < s.len(),
        0 <= depth < 128,
    ensures
        s[pos] == '[' ==> {
            let first = blanks_end(s, pos + 1);
            let r = value_at(s, pos, depth);
            if first < s.len() && s[first] == ']' {
                r == Ok::<(Json, int), ParseError>((Json::Array(Seq::empty()), first + 1))
            } else {
                match items_at(s, pos + 1, depth + 1, Seq::empty()) {
                    Ok((items, end)) => r == Ok::<(Json, int), ParseError>(
                        (Json::Array(items), end),
                    ),
                    Err(e) => r == Err::<(Json, int), ParseError>(e),
                }
            }
        },
        value_at(s, blanks_end(s, pos), depth) matches Ok((v, end)) ==> (pos < end <= s.len() ==> {
            let after = blanks_end(s, end);
            let r = items_at(s, pos, depth, seen);
            &&& after < s.len() && s[after] == ',' ==> r == items_at(
                s,
                after + 1,
                depth,
                seen.push(v),
            )
            &&& after < s.len() && s[after] == ']' ==> r == Ok::<(Seq<Json>, int), ParseError>(
                (seen.push(v), after + 1),
            )
            &&& after >= s.len() || (s[after] != ',' && s[after] != ']') ==> (r matches Err(e)
                && e.what == "expected ',' or ']'"
                    && e.at == encode_utf8(s.take(after)).len() as usize)
        }),
{
    law_blanks_are_passed_over(s, pos);
    law_blanks_are_passed_over(s, pos + 1);
    if let Ok((v, end)) = value_at(s, blanks_end(s, pos), depth) {
        if pos < end <= s.len() {
            law_blanks_are_passed_over(s, end);
        }
    }
}

/// An object is its fields with a comma between them, up to a brace: each a
/// string, a colon and a value.
pub proof fn law_json_objects_are_read(
    s: Seq<char>,
    pos: int,
    depth: int,
    seen: Seq<(Seq<char>, Json)>,
    key: Seq<char>,
    key_end: int,
)
    requires
        0 <= pos < s.len(),
        0 <= depth < 128,
        pos <= key_end <= s.len(),
    ensures
        s[pos] == '{' ==> {
            let first = blanks_end(s, pos + 1);
            let r = value_at(s, pos, depth);
            if first < s.len() && s[first] == '}' {
                r == Ok::<(Json, int), ParseError>((Json::Object(Seq::empty()), first + 1))
            } else {
                match fields_at(s, pos + 1, depth + 1, Seq::empty()) {
                    Ok((fields, end)) => r == Ok::<(Json, int), ParseError>(
                        (Json::Object(fields), end),
                    ),
                    Err(e) => r == Err::<(Json, int), ParseError>(e),
                }
            }
        },
        ({
            let start = blanks_end(s, pos);
            start >= s.len() || s[start] != '"' ==> (fields_at(s, pos, depth, seen) matches Err(e)
                && e.what == "expected a string key"
                    && e.at == encode_utf8(s.take(start)).len() as usize)
        }),
        ({
            let start = blanks_end(s, pos);
            let colon = blanks_end(s, key_end);
            let r = fields_at(s, pos, depth, seen);
            start < s.len() && s[start] == '"' && string_at(s, start + 1, Seq::empty()) == Ok::<
                (Seq<char>, int),
                ParseError,
            >((key, key_end)) ==> {
                &&& colon >= s.len() || s[colon] != ':' ==> (r matches Err(e) && e.what
                    == "expected ':' after key" && e.at == encode_utf8(s.take(colon)).len() as usize)
                &&& colon < s.len() && s[colon] == ':' ==> (value_at(
                    s,
                    blanks_end(s, colon + 1),
                    depth,
                ) matches Ok((v, end)) ==> (pos < end <= s.len() ==> {
                    let after = blanks_end(s, end);
                    &&& after < s.len() && s[after] == ',' ==> r == fields_at(
                        s,
                        after + 1,
                        depth,
                        seen.push((key, v)),
                    )
                    &&& after < s.len() && s[after] == '}' ==> r == Ok::<
                        (Seq<(Seq<char>, Json)>, int),
                        ParseError,
                    >((seen.push((key, v)), after + 1))
                }))
            }
        }),
{
    law_blanks_are_passed_over(s, pos);
    law_blanks_are_passed_over(s, pos + 1);
    law_blanks_are_passed_over(s, key_end);
    let colon = blanks_end(s, key_end);
    if colon < s.len() {
        law_blanks_are_passed_over(s, colon + 1);
        if let Ok((v, end)) = value_at(s, blanks_end(s, colon + 1), depth) {
            if pos < end <= s.len() {
                law_blanks_are_passed_over(s, end);
            }
        }
    }
}

/// A number with a point in it is kept as it is spelled, unless it is too large.
pub proof fn law_json_fractions_are_read(s: Seq<char>, pos: int, b: int, c: int, depth: int)
    requires
        0 <= pos < s.len(),
        ({
            let a = if s[pos] == '-' {
                pos + 1
            } else {
                pos
            };
            &&& a < b < c <= s.len()
            &&& forall|i: int| a <= i < b ==> '0' <= #[trigger] s[i] <= '9'
        }),
        s[b] == '.',
        forall|i: int| b < i < c ==> '0' <= #[trigger] s[i] <= '9',
        c == s.len() || !('0' <= s[c] <= '9' || s[c] == 'e' || s[c] == 'E'),
    ensures
        json::is_vast(s, pos) ==> (value_at(s, pos, depth) matches Err(e) && e.what
            == "number out of range"),
        !json::is_vast(s, pos) ==> value_at(s, pos, depth) == Ok::<(Json, int), ParseError>(
            (Json::Float(s.subrange(pos, c)), c),
        ),
{
    let a = if s[pos] == '-' {
        pos + 1
    } else {
        pos
    };
    assert forall|i: int| b + 1 <= i < c implies '0' <= #[trigger] s[i] <= '9' by {}
    lemma_digits_end(s, a, b);
    lemma_digits_end(s, b + 1, c);
    assert('0' <= s[a] <= '9');
    assert(value_at(s, pos, depth) == number_at(s, pos));
}

/// A minus sign with no digit behind it is no number.
pub proof fn law_lone_sign_is_refused(s: Seq<char>, pos: int, depth: int)
    requires
        0 <= pos < s.len(),
        s[pos] == '-',
        pos + 1 == s.len() || !('0' <= s[pos + 1] <= '9' || s[pos + 1] == '.' || s[pos + 1] == 'e'
            || s[pos + 1] == 'E'),
    ensures
        value_at(s, pos, depth) matches Err(e) && e.what == "invalid number",
{
    lemma_digits_end(s, pos + 1, pos + 1);
    assert(value_at(s, pos, depth) == number_at(s, pos));
}

/// A field of an object is the first of its name; there is none if none has it.
pub proof fn law_first_field_counts(f: Seq<(Seq<char>, Json)>, name: Seq<char>, i: int)
    requires
        0 <= i <= f.len(),
        forall|j: int| 0 <= j < i ==> (#[trigger] f[j]).0 != name,
        i < f.len() ==> f[i].0 == name,
    ensures
        json::field_named(f, name) == (if i < f.len() {
            Some(f[i].1)
        } else {
            None
        }),
    decreases i,
{
    if i > 0 {
        assert(f[0].0 != name);
        let g = f.skip(1);
        assert forall|j: int| 0 <= j < i - 1 implies (#[trigger] g[j]).0 != name by {
            assert(f[j + 1].0 != name);
        }
        if i < f.len() {
            assert(g[i - 1] == f[i]);
        }
        law_first_field_counts(g, name, i - 1);
    }
}

} // verus!
