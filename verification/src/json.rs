//! A minimal JSON encoder and parser: the surface the local API and the
//! command line require, with exact control over escaping and hostile-input
//! limits.
//!
//! [`Value::Object`] preserves insertion order, so field order in the output
//! is whatever the caller wrote. [`parse`] preserves the order it read, too.
use vstd::prelude::*;
#[allow(unused_imports)]
use vstd::string::*;
#[allow(unused_imports)]
use vstd::utf8::*;
use crate::decimal::{decimal, decimal_text, lemma_decimal, push_decimal};
use crate::magnitude::{out_of_range, rounds_to_infinity};
use crate::resume::{push_signed, signed_text};
use crate::scan::{all_digits, copy_chars, dec_value, occurs_at, read_number};
use crate::strings::{chars_of, string_of, text_eq};

verus! {

/// `char::from_u32`: the character with a code, if the code is a Unicode
/// scalar value.
pub assume_specification[ char::from_u32 ](i: u32) -> (r: Option<char>)
    ensures
        match r {
            Some(c) => c as u32 == i && c == i as char,
            None => (0xd800 <= i <= 0xdfff) || i > 0x10ffff,
        },
;

/// A JSON value.
#[derive(Debug, PartialEq, Eq)]
pub enum Value {
    /// JSON `null`.
    Null,
    /// A boolean.
    Bool(bool),
    /// A signed integer.
    Int(i64),
    /// An unsigned integer (torrent sizes, counts).
    UInt(u64),
    /// Any other number, as the text that spells it: with a fraction, with an
    /// exponent, or too wide for the integers.
    Float(String),
    /// A string. Escaped on encode.
    Str(String),
    /// An array of values.
    Array(Vec<Value>),
    /// An object; keys are emitted in insertion order.
    Object(Vec<(String, Value)>),
}

/// Deepest nesting [`parse`] accepts, so a hostile `[[[[` cannot exhaust the
/// stack.
pub const MAX_DEPTH: usize = 128;

/// Why parsing failed: a byte offset and a fixed reason.
#[derive(Clone, Copy, Debug, PartialEq, Eq)]
pub struct ParseError {
    /// Byte offset into the input where the problem was found.
    pub at: usize,
    /// What went wrong.
    pub what: &'static str,
}

impl ParseError {
    /// What was wrong, and where, in words.
    pub fn message(&self) -> (r: String)
        ensures
            r@ == "json: "@ + self.what@ + " at byte "@ + decimal_text(self.at as nat),
    {
        let mut s = "json: ".to_owned();
        s.append(self.what);
        s.append(" at byte ");
        push_decimal(&mut s, self.at as u64);
        s
    }
}

// ---------------------------------------------------------------------------
// The model, and the text of a value.

/// What a [`Value`] stands for.
#[verifier::ext_equal]
pub enum Json {
    Null,
    Bool(bool),
    Int(int),
    UInt(int),
    Float(Seq<char>),
    Str(Seq<char>),
    Array(Seq<Json>),
    Object(Seq<(Seq<char>, Json)>),
}

/// What a value stands for.
pub open spec fn json(v: Value) -> Json
    decreases v,
{
    match v {
        Value::Null => Json::Null,
        Value::Bool(b) => Json::Bool(b),
        Value::Int(n) => Json::Int(n as int),
        Value::UInt(n) => Json::UInt(n as int),
        Value::Float(s) => Json::Float(s@),
        Value::Str(s) => Json::Str(s@),
        Value::Array(items) => Json::Array(jsons(items)),
        Value::Object(fields) => Json::Object(json_fields(fields)),
    }
}

/// What the items of an array stand for.
pub open spec fn jsons(items: Vec<Value>) -> Seq<Json>
    decreases items,
{
    Seq::new(
        items@.len(),
        |i: int|
            if 0 <= i < items@.len() {
                json(items@[i])
            } else {
                Json::Null
            },
    )
}

/// What the fields of an object stand for.
pub open spec fn json_fields(fields: Vec<(String, Value)>) -> Seq<(Seq<char>, Json)>
    decreases fields,
{
    Seq::new(
        fields@.len(),
        |i: int|
            if 0 <= i < fields@.len() {
                (fields@[i].0@, json(fields@[i].1))
            } else {
                (Seq::empty(), Json::Null)
            },
    )
}

impl View for Value {
    type V = Json;

    open spec fn view(&self) -> Json {
        json(*self)
    }
}

impl Clone for Value {
    fn clone(&self) -> (r: Value)
        ensures
            r@ == self@,
    {
        self.copy()
    }
}

/// A hexadecimal digit.
pub open spec fn hex_digit(n: int) -> char {
    if n < 10 {
        (48 + n) as char
    } else {
        (87 + n) as char
    }
}

/// What one character of a string becomes.
pub open spec fn escaped(c: char) -> Seq<char> {
    if c == '"' {
        seq!['\\', '"']
    } else if c == '\\' {
        seq!['\\', '\\']
    } else if c == '\u{08}' {
        seq!['\\', 'b']
    } else if c == '\t' {
        seq!['\\', 't']
    } else if c == '\n' {
        seq!['\\', 'n']
    } else if c == '\u{0C}' {
        seq!['\\', 'f']
    } else if c == '\r' {
        seq!['\\', 'r']
    } else if (c as u32) < 0x20 {
        seq![
            '\\',
            'u',
            '0',
            '0',
            hex_digit(c as u32 as int / 16),
            hex_digit(c as u32 as int % 16),
        ]
    } else {
        seq![c]
    }
}

/// What the characters of a string become.
pub open spec fn escaped_text(s: Seq<char>) -> Seq<char>
    decreases s.len(),
{
    if s.len() == 0 {
        Seq::empty()
    } else {
        escaped_text(s.drop_last()) + escaped(s.last())
    }
}

/// A string literal.
pub open spec fn quoted(s: Seq<char>) -> Seq<char> {
    seq!['"'] + escaped_text(s) + seq!['"']
}

/// The text of a value.
pub open spec fn text_of(v: Json) -> Seq<char>
    decreases v,
{
    match v {
        Json::Null => "null"@,
        Json::Bool(b) => if b {
            "true"@
        } else {
            "false"@
        },
        Json::Int(n) => signed_text(n),
        Json::UInt(n) => decimal_text(n as nat),
        Json::Float(s) => s,
        Json::Str(s) => quoted(s),
        Json::Array(items) => seq!['['] + items_text(items) + seq![']'],
        Json::Object(fields) => seq!['{'] + fields_text(fields) + seq!['}'],
    }
}

/// The texts of items, with commas between them.
pub open spec fn items_text(items: Seq<Json>) -> Seq<char>
    decreases items,
{
    if items.len() == 0 {
        Seq::empty()
    } else if items.len() == 1 {
        text_of(items.last())
    } else {
        items_text(items.drop_last()) + seq![','] + text_of(items.last())
    }
}

/// The texts of fields, with commas between them.
pub open spec fn fields_text(fields: Seq<(Seq<char>, Json)>) -> Seq<char>
    decreases fields,
{
    if fields.len() == 0 {
        Seq::empty()
    } else if fields.len() == 1 {
        quoted(fields.last().0) + seq![':'] + text_of(fields.last().1)
    } else {
        fields_text(fields.drop_last()) + seq![','] + quoted(fields.last().0) + seq![':'] + text_of(
            fields.last().1,
        )
    }
}

// ---------------------------------------------------------------------------
// The grammar: what stands at a position of the input.

/// A failure at a position, by its offset in bytes.
pub open spec fn failed<T>(s: Seq<char>, pos: int, what: &'static str) -> Result<T, ParseError> {
    Err(ParseError { at: encode_utf8(s.take(pos)).len() as usize, what })
}

/// Whether a character is white space between tokens.
pub open spec fn is_blank(c: char) -> bool {
    c == ' ' || c == '\t' || c == '\n' || c == '\r'
}

/// The first position at or after `pos` that holds no white space.
pub open spec fn blanks_end(s: Seq<char>, pos: int) -> int
    decreases s.len() - pos,
{
    if 0 <= pos < s.len() && is_blank(s[pos]) {
        blanks_end(s, pos + 1)
    } else {
        pos
    }
}

/// The first position at or after `pos` that holds no digit.
pub open spec fn digits_end(s: Seq<char>, pos: int) -> int
    decreases s.len() - pos,
{
    if 0 <= pos < s.len() && '0' <= s[pos] <= '9' {
        digits_end(s, pos + 1)
    } else {
        pos
    }
}

/// Whether `c` stands at `pos`.
pub open spec fn is_at(s: Seq<char>, pos: int, c: char) -> bool {
    0 <= pos < s.len() && s[pos] == c
}

/// Where the parts of a number that starts at `pos` end: its sign, its whole
/// digits, its fraction, the exponent's sign, and the exponent's digits.
pub open spec fn number_parts(s: Seq<char>, pos: int) -> (int, int, int, int, int) {
    let a = if is_at(s, pos, '-') {
        pos + 1
    } else {
        pos
    };
    let b = digits_end(s, a);
    let c = if is_at(s, b, '.') {
        digits_end(s, b + 1)
    } else {
        b
    };
    let has_exp = is_at(s, c, 'e') || is_at(s, c, 'E');
    let d = if !has_exp {
        c
    } else if is_at(s, c + 1, '+') || is_at(s, c + 1, '-') {
        c + 2
    } else {
        c + 1
    };
    let e = if has_exp {
        digits_end(s, d)
    } else {
        d
    };
    (a, b, c, d, e)
}

/// The number that starts at `pos`, and the position after it.
pub open spec fn number_at(s: Seq<char>, pos: int) -> Result<(Json, int), ParseError> {
    let (a, b, c, d, e) = number_parts(s, pos);
    let whole = s.subrange(a, b);
    let n = dec_value(whole);
    let negative = a > pos;
    let is_float = c > b || e > c;
    if !is_float && b > a && negative && n <= 0x8000_0000_0000_0000 {
        Ok((Json::Int(-n), e))
    } else if !is_float && b > a && !negative && n <= i64::MAX {
        Ok((Json::Int(n as int), e))
    } else if !is_float && b > a && !negative && n <= u64::MAX {
        Ok((Json::UInt(n as int), e))
    } else if (b > a || c > b + 1) && (d == c || e > d) {
        if is_vast(s, pos) {
            failed(s, e, "number out of range")
        } else {
            Ok((Json::Float(s.subrange(pos, e)), e))
        }
    } else {
        failed(s, e, "invalid number")
    }
}

/// Whether the number that starts at `pos` is too large for double precision.
pub open spec fn is_vast(s: Seq<char>, pos: int) -> bool {
    let (a, b, c, d, e) = number_parts(s, pos);
    let fraction = if c > b {
        s.subrange(b + 1, c)
    } else {
        Seq::empty()
    };
    out_of_range(
        s.subrange(a, b) + fraction,
        fraction.len(),
        s.subrange(d, e),
        d > c && is_at(s, d - 1, '-'),
    )
}

/// The value of a hexadecimal digit.
pub open spec fn hex_of(c: char) -> Option<int> {
    if '0' <= c <= '9' {
        Some(c as u32 - 48)
    } else if 'a' <= c <= 'f' {
        Some(c as u32 - 87)
    } else if 'A' <= c <= 'F' {
        Some(c as u32 - 55)
    } else {
        None
    }
}

/// The number that the next `n` hexadecimal digits from `pos` on stand for.
pub open spec fn hex_at(s: Seq<char>, pos: int, n: int) -> Result<int, ParseError>
    decreases n,
{
    if n <= 0 {
        Ok(0)
    } else {
        match hex_at(s, pos, n - 1) {
            Err(e) => Err(e),
            Ok(v) => if pos + n - 1 < s.len() && hex_of(s[pos + n - 1]) is Some {
                Ok(v * 16 + hex_of(s[pos + n - 1])->Some_0)
            } else {
                failed(s, pos + n - 1, "expected 4 hex digits")
            },
        }
    }
}

/// The character of the escape whose digits start at `pos`, and the position
/// after it. A character beyond the basic plane is two escapes in a row.
pub open spec fn unicode_at(s: Seq<char>, pos: int) -> Result<(char, int), ParseError> {
    match hex_at(s, pos, 4) {
        Err(e) => Err(e),
        Ok(hi) => if 0xd800 <= hi <= 0xdbff {
            if !is_at(s, pos + 4, '\\') {
                failed(s, pos + 4, "lone high surrogate")
            } else if !is_at(s, pos + 5, 'u') {
                failed(s, pos + 5, "lone high surrogate")
            } else {
                match hex_at(s, pos + 6, 4) {
                    Err(e) => Err(e),
                    Ok(lo) => if 0xdc00 <= lo <= 0xdfff {
                        Ok(
                            (
                                (0x1_0000 + (hi - 0xd800) * 0x400 + (lo - 0xdc00)) as char,
                                pos + 10,
                            ),
                        )
                    } else {
                        failed(s, pos + 10, "invalid low surrogate")
                    },
                }
            }
        } else if 0xdc00 <= hi <= 0xdfff {
            failed(s, pos + 4, "lone low surrogate")
        } else {
            Ok((hi as char, pos + 4))
        },
    }
}

/// The character of the escape after a backslash at `pos - 1`, and the
/// position after it.
pub open spec fn escape_at(s: Seq<char>, pos: int) -> Result<(char, int), ParseError> {
    if is_at(s, pos, '"') {
        Ok(('"', pos + 1))
    } else if is_at(s, pos, '\\') {
        Ok(('\\', pos + 1))
    } else if is_at(s, pos, '/') {
        Ok(('/', pos + 1))
    } else if is_at(s, pos, 'b') {
        Ok(('\u{08}', pos + 1))
    } else if is_at(s, pos, 'f') {
        Ok(('\u{0C}', pos + 1))
    } else if is_at(s, pos, 'n') {
        Ok(('\n', pos + 1))
    } else if is_at(s, pos, 'r') {
        Ok(('\r', pos + 1))
    } else if is_at(s, pos, 't') {
        Ok(('\t', pos + 1))
    } else if is_at(s, pos, 'u') {
        unicode_at(s, pos + 1)
    } else {
        failed(s, pos, "invalid string escape")
    }
}

/// The characters `seen` and those of a string from `pos` up to its closing
/// quote, and the position after it.
pub open spec fn string_at(s: Seq<char>, pos: int, seen: Seq<char>) -> Result<
    (Seq<char>, int),
    ParseError,
>
    decreases s.len() - pos,
{
    if pos >= s.len() {
        failed(s, pos, "unterminated string")
    } else if s[pos] == '"' {
        Ok((seen, pos + 1))
    } else if s[pos] == '\\' {
        match escape_at(s, pos + 1) {
            Err(e) => Err(e),
            Ok((c, end)) => if pos < end <= s.len() {
                string_at(s, end, seen.push(c))
            } else {
                failed(s, pos, "unterminated string")
            },
        }
    } else if (s[pos] as u32) < 0x20 {
        failed(s, pos, "control character in string")
    } else {
        string_at(s, pos + 1, seen.push(s[pos]))
    }
}

/// A word at `pos`, and the position after it.
pub open spec fn word_at(s: Seq<char>, pos: int, word: Seq<char>, v: Json) -> Result<
    (Json, int),
    ParseError,
> {
    if pos + word.len() <= s.len() && s.subrange(pos, pos + word.len()) == word {
        Ok((v, pos + word.len()))
    } else {
        failed(s, pos, "invalid literal")
    }
}

/// The value that starts at `pos`, inside `depth` containers, and the position
/// after it.
pub open spec fn value_at(s: Seq<char>, pos: int, depth: int) -> Result<(Json, int), ParseError>
    decreases MAX_DEPTH - depth, s.len() - pos, 0int,
{
    if pos >= s.len() {
        failed(s, pos, "expected a JSON value")
    } else if s[pos] == '{' {
        if depth >= MAX_DEPTH {
            failed(s, pos, "nesting too deep")
        } else if is_at(s, blanks_end(s, pos + 1), '}') {
            Ok((Json::Object(Seq::empty()), blanks_end(s, pos + 1) + 1))
        } else {
            match fields_at(s, pos + 1, depth + 1, Seq::empty()) {
                Ok((fields, end)) => Ok((Json::Object(fields), end)),
                Err(e) => Err(e),
            }
        }
    } else if s[pos] == '[' {
        if depth >= MAX_DEPTH {
            failed(s, pos, "nesting too deep")
        } else if is_at(s, blanks_end(s, pos + 1), ']') {
            Ok((Json::Array(Seq::empty()), blanks_end(s, pos + 1) + 1))
        } else {
            match items_at(s, pos + 1, depth + 1, Seq::empty()) {
                Ok((items, end)) => Ok((Json::Array(items), end)),
                Err(e) => Err(e),
            }
        }
    } else if s[pos] == '"' {
        match string_at(s, pos + 1, Seq::empty()) {
            Ok((t, end)) => Ok((Json::Str(t), end)),
            Err(e) => Err(e),
        }
    } else if s[pos] == 't' {
        word_at(s, pos, "true"@, Json::Bool(true))
    } else if s[pos] == 'f' {
        word_at(s, pos, "false"@, Json::Bool(false))
    } else if s[pos] == 'n' {
        word_at(s, pos, "null"@, Json::Null)
    } else if s[pos] == '-' || '0' <= s[pos] <= '9' {
        number_at(s, pos)
    } else {
        failed(s, pos, "expected a JSON value")
    }
}

/// The items `seen` and those from `pos` up to the closing bracket, and the
/// position after it.
pub open spec fn items_at(s: Seq<char>, pos: int, depth: int, seen: Seq<Json>) -> Result<
    (Seq<Json>, int),
    ParseError,
>
    decreases MAX_DEPTH - depth, s.len() - pos, 2int,
{
    let start = blanks_end(s, pos);
    if !(pos <= start <= s.len()) {
        failed(s, pos, "expected a JSON value")
    } else {
        match value_at(s, start, depth) {
            Err(e) => Err(e),
            Ok((v, end)) => {
                let after = blanks_end(s, end);
                if !(pos < end <= after <= s.len()) {
                    failed(s, pos, "expected a JSON value")
                } else if is_at(s, after, ',') {
                    items_at(s, after + 1, depth, seen.push(v))
                } else if is_at(s, after, ']') {
                    Ok((seen.push(v), after + 1))
                } else {
                    failed(s, after, "expected ',' or ']'")
                }
            },
        }
    }
}

/// The fields `seen` and those from `pos` up to the closing brace, and the
/// position after it.
pub open spec fn fields_at(s: Seq<char>, pos: int, depth: int, seen: Seq<(Seq<char>, Json)>) -> Result<
    (Seq<(Seq<char>, Json)>, int),
    ParseError,
>
    decreases MAX_DEPTH - depth, s.len() - pos, 2int,
{
    let start = blanks_end(s, pos);
    if !is_at(s, start, '"') {
        failed(s, start, "expected a string key")
    } else {
        match string_at(s, start + 1, Seq::empty()) {
            Err(e) => Err(e),
            Ok((key, key_end)) => {
                let colon = blanks_end(s, key_end);
                if !is_at(s, colon, ':') {
                    failed(s, colon, "expected ':' after key")
                } else if !(pos < blanks_end(s, colon + 1) <= s.len()) {
                    failed(s, colon, "expected a JSON value")
                } else {
                    match value_at(s, blanks_end(s, colon + 1), depth) {
                        Err(e) => Err(e),
                        Ok((v, end)) => {
                            let after = blanks_end(s, end);
                            if !(pos < end <= after <= s.len()) {
                                failed(s, colon, "expected a JSON value")
                            } else if is_at(s, after, ',') {
                                fields_at(s, after + 1, depth, seen.push((key, v)))
                            } else if is_at(s, after, '}') {
                                Ok((seen.push((key, v)), after + 1))
                            } else {
                                failed(s, after, "expected ',' or '}'")
                            }
                        },
                    }
                }
            },
        }
    }
}

/// The value that the whole input spells.
pub open spec fn parsed(s: Seq<char>) -> Result<Json, ParseError> {
    match value_at(s, blanks_end(s, 0), 0) {
        Err(e) => Err(e),
        Ok((v, end)) => if blanks_end(s, end) != s.len() {
            failed(s, blanks_end(s, end), "trailing data after JSON value")
        } else {
            Ok(v)
        },
    }
}


// ---------------------------------------------------------------------------
// Encoding.

fn push_escaped(out: &mut String, c: char)
    ensures
        final(out)@ == old(out)@ + escaped(c),
{
    let ghost before = out@;
    if c == '"' {
        out.push('\\');
        out.push('"');
    } else if c == '\\' {
        out.push('\\');
        out.push('\\');
    } else if c == '\u{08}' {
        out.push('\\');
        out.push('b');
    } else if c == '\t' {
        out.push('\\');
        out.push('t');
    } else if c == '\n' {
        out.push('\\');
        out.push('n');
    } else if c == '\u{0C}' {
        out.push('\\');
        out.push('f');
    } else if c == '\r' {
        out.push('\\');
        out.push('r');
    } else if (c as u32) < 0x20 {
        let n: u8 = c as u32 as u8;
        let lo: u8 = n % 16;
        out.push('\\');
        out.push('u');
        out.push('0');
        out.push('0');
        out.push((48 + n / 16) as char);
        out.push(
            (if lo < 10 {
                48 + lo
            } else {
                87 + lo
            }) as char,
        );
    } else {
        out.push(c);
    }
    proof {
        assert(out@ =~= before + escaped(c));
    }
}

/// Write a JSON string literal: `"` and `\` are backslash-escaped, the
/// shortcuts are used where they apply, and any other control character below
/// `0x20` becomes `\u00XX`. Everything else passes through.
fn write_string(s: &str, out: &mut String)
    ensures
        final(out)@ == old(out)@ + quoted(s@),
{
    let ghost before = out@;
    let chars = chars_of(s);
    out.push('"');
    let ghost start = out@;
    let mut i: usize = 0;
    proof {
        assert(s@.take(0) =~= Seq::empty());
        assert(start + escaped_text(s@.take(0)) =~= start);
    }
    while i < chars.len()
        invariant
            i <= chars@.len(),
            chars@ == s@,
            out@ == start + escaped_text(s@.take(i as int)),
        decreases chars.len() - i,
    {
        push_escaped(out, chars[i]);
        proof {
            assert(s@.take(i as int + 1).drop_last() =~= s@.take(i as int));
            assert(out@ =~= start + escaped_text(s@.take(i as int + 1)));
        }
        i = i + 1;
    }
    out.push('"');
    proof {
        assert(s@.take(i as int) =~= s@);
        assert(out@ =~= before + quoted(s@));
    }
}

impl Value {
    /// A string value.
    pub fn string(s: &str) -> (v: Value)
        ensures
            v@ == Json::Str(s@),
    {
        Value::Str(s.to_owned())
    }

    /// Encode to a JSON string.
    pub fn encode(&self) -> (r: String)
        ensures
            r@ == text_of(self@),
    {
        let mut out: String = String::new();
        self.write(&mut out);
        proof {
            assert(out@ =~= text_of(self@));
        }
        out
    }

    fn copy(&self) -> (r: Value)
        ensures
            r@ == self@,
        decreases *self,
    {
        match self {
            Value::Null => Value::Null,
            Value::Bool(b) => Value::Bool(*b),
            Value::Int(n) => Value::Int(*n),
            Value::UInt(n) => Value::UInt(*n),
            Value::Float(s) => Value::Float(s.as_str().to_owned()),
            Value::Str(s) => Value::Str(s.as_str().to_owned()),
            Value::Array(items) => {
                let mut copies: Vec<Value> = Vec::new();
                let mut i: usize = 0;
                while i < items.len()
                    invariant
                        i <= items@.len(),
                        *self == Value::Array(*items),
                        copies@.len() == i,
                        forall|j: int| 0 <= j < i ==> (#[trigger] copies@[j])@ == items@[j]@,
                    decreases items.len() - i,
                {
                    proof {
                        assert(self->Array_0 == *items);
                        assert(decreases_to!(*items => items@[i as int]));
                    }
                    copies.push(items[i].copy());
                    i = i + 1;
                }
                proof {
                    assert(jsons(copies) =~= jsons(*items));
                }
                Value::Array(copies)
            },
            Value::Object(fields) => {
                let mut copies: Vec<(String, Value)> = Vec::new();
                let mut i: usize = 0;
                while i < fields.len()
                    invariant
                        i <= fields@.len(),
                        *self == Value::Object(*fields),
                        copies@.len() == i,
                        forall|j: int|
                            0 <= j < i ==> (#[trigger] copies@[j]).0@ == fields@[j].0@
                                && copies@[j].1@ == fields@[j].1@,
                    decreases fields.len() - i,
                {
                    proof {
                        assert(self->Object_0 == *fields);
                        assert(decreases_to!(*fields => fields@[i as int]));
                    }
                    copies.push((fields[i].0.as_str().to_owned(), fields[i].1.copy()));
                    i = i + 1;
                }
                proof {
                    assert(json_fields(copies) =~= json_fields(*fields));
                }
                Value::Object(copies)
            },
        }
    }

    fn write(&self, out: &mut String)
        ensures
            final(out)@ == old(out)@ + text_of(self@),
        decreases *self,
    {
        let ghost before = out@;
        match self {
            Value::Null => out.append("null"),
            Value::Bool(b) => if *b {
                out.append("true");
            } else {
                out.append("false");
            },
            Value::Int(n) => push_signed(out, *n),
            Value::UInt(n) => push_decimal(out, *n),
            Value::Float(s) => out.append(s.as_str()),
            Value::Str(s) => write_string(s.as_str(), out),
            Value::Array(items) => {
                out.push('[');
                let ghost start = out@;
                let ghost t = jsons(*items);
                let mut i: usize = 0;
                proof {
                    assert(t.take(0) =~= Seq::empty());
                    assert(start + items_text(t.take(0)) =~= start);
                }
                while i < items.len()
                    invariant
                        i <= items@.len(),
                        *self == Value::Array(*items),
                        t == jsons(*items),
                        out@ == start + items_text(t.take(i as int)),
                    decreases items.len() - i,
                {
                    if i > 0 {
                        out.push(',');
                    }
                    proof {
                        assert(self->Array_0 == *items);
                        assert(decreases_to!(*items => items@[i as int]));
                    }
                    items[i].write(out);
                    proof {
                        assert(t.take(i as int + 1).drop_last() =~= t.take(i as int));
                        assert(t.take(i as int + 1).last() == items@[i as int]@);
                        if i == 0 {
                            assert(items_text(t.take(0)) =~= Seq::empty());
                        }
                        assert(out@ =~= start + items_text(t.take(i as int + 1)));
                    }
                    i = i + 1;
                }
                out.push(']');
                proof {
                    assert(t.take(t.len() as int) =~= t);
                    assert(out@ =~= before + text_of(self@));
                }
            },
            Value::Object(fields) => {
                out.push('{');
                let ghost start = out@;
                let ghost t = json_fields(*fields);
                let mut i: usize = 0;
                proof {
                    assert(t.take(0) =~= Seq::empty());
                    assert(start + fields_text(t.take(0)) =~= start);
                }
                while i < fields.len()
                    invariant
                        i <= fields@.len(),
                        *self == Value::Object(*fields),
                        t == json_fields(*fields),
                        out@ == start + fields_text(t.take(i as int)),
                    decreases fields.len() - i,
                {
                    if i > 0 {
                        out.push(',');
                    }
                    write_string(fields[i].0.as_str(), out);
                    out.push(':');
                    proof {
                        assert(self->Object_0 == *fields);
                        assert(decreases_to!(*fields => fields@[i as int]));
                    }
                    fields[i].1.write(out);
                    proof {
                        assert(t.take(i as int + 1).drop_last() =~= t.take(i as int));
                        assert(t.take(i as int + 1).last() == (
                            fields@[i as int].0@,
                            fields@[i as int].1@,
                        ));
                        if i == 0 {
                            assert(fields_text(t.take(0)) =~= Seq::empty());
                        }
                        assert(out@ =~= start + fields_text(t.take(i as int + 1)));
                    }
                    i = i + 1;
                }
                out.push('}');
                proof {
                    assert(t.take(t.len() as int) =~= t);
                    assert(out@ =~= before + text_of(self@));
                }
            },
        }
    }
}

// ---------------------------------------------------------------------------
// Access.

/// The value of the first field named `key`.
pub open spec fn field_named(f: Seq<(Seq<char>, Json)>, key: Seq<char>) -> Option<Json>
    decreases f.len(),
{
    if f.len() == 0 {
        None
    } else if f[0].0 == key {
        Some(f[0].1)
    } else {
        field_named(f.skip(1), key)
    }
}

impl Value {
    /// This object's value for `key`, if this is an object that has it.
    pub fn get(&self, key: &str) -> (r: Option<&Value>)
        ensures
            match self@ {
                Json::Object(f) => match r {
                    Some(v) => field_named(f, key@) == Some(v@),
                    None => field_named(f, key@) is None,
                },
                _ => r is None,
            },
    {
        match self {
            Value::Object(fields) => {
                let ghost f = json_fields(*fields);
                let mut i: usize = 0;
                proof {
                    assert(f.skip(0) =~= f);
                }
                while i < fields.len()
                    invariant
                        i <= fields@.len(),
                        f == json_fields(*fields),
                        self@ == Json::Object(f),
                        field_named(f, key@) == field_named(f.skip(i as int), key@),
                    decreases fields.len() - i,
                {
                    proof {
                        assert(f.skip(i as int).skip(1) =~= f.skip(i as int + 1));
                        assert(f.skip(i as int)[0] == f[i as int]);
                        assert(f[i as int] == (fields@[i as int].0@, fields@[i as int].1@));
                    }
                    if text_eq(fields[i].0.as_str(), key) {
                        return Some(&fields[i].1);
                    }
                    i = i + 1;
                }
                None
            },
            _ => None,
        }
    }

    /// The string, if this is one.
    pub fn as_str(&self) -> (r: Option<&str>)
        ensures
            match r {
                Some(s) => self@ == Json::Str(s@),
                None => !(self@ is Str),
            },
    {
        match self {
            Value::Str(s) => Some(s.as_str()),
            _ => None,
        }
    }

    /// The boolean, if this is one. Strict: `1` and `"true"` are not booleans.
    pub fn as_bool(&self) -> (r: Option<bool>)
        ensures
            match r {
                Some(b) => self@ == Json::Bool(b),
                None => !(self@ is Bool),
            },
    {
        match self {
            Value::Bool(b) => Some(*b),
            _ => None,
        }
    }

    /// The elements, if this is an array.
    pub fn as_array(&self) -> (r: Option<&Vec<Value>>)
        ensures
            match r {
                Some(items) => self@ == Json::Array(jsons(*items)),
                None => !(self@ is Array),
            },
    {
        match self {
            Value::Array(items) => Some(items),
            _ => None,
        }
    }

    /// This value as `u64` if it is a non-negative integer. Which variant a
    /// number arrives as depends on how it was written, and JSON itself draws
    /// no such distinction.
    pub fn as_u64(&self) -> (r: Option<u64>)
        ensures
            r == (match self@ {
                Json::UInt(n) => Some(n as u64),
                Json::Int(n) => if n >= 0 {
                    Some(n as u64)
                } else {
                    None
                },
                _ => None::<u64>,
            }),
    {
        match self {
            Value::UInt(n) => Some(*n),
            Value::Int(n) => if *n >= 0 {
                Some(*n as u64)
            } else {
                None
            },
            _ => None,
        }
    }

    /// The fields, if this is an object.
    pub fn as_object(&self) -> (r: Option<&Vec<(String, Value)>>)
        ensures
            match r {
                Some(fields) => self@ == Json::Object(json_fields(*fields)),
                None => !(self@ is Object),
            },
    {
        match self {
            Value::Object(fields) => Some(fields),
            _ => None,
        }
    }

    /// A compact one-line human rendering for table cells: a string bare
    /// (unquoted), `null` as `-`, and anything else as its JSON.
    pub fn to_line(&self) -> (r: String)
        ensures
            r@ == (match self@ {
                Json::Str(s) => s,
                Json::Null => "-"@,
                other => text_of(other),
            }),
    {
        match self {
            Value::Str(s) => s.clone(),
            Value::Null => "-".to_owned(),
            _ => self.encode(),
        }
    }
}

// ---------------------------------------------------------------------------
// Parsing.

proof fn lemma_blanks(s: Seq<char>, pos: int)
    requires
        0 <= pos <= s.len(),
    ensures
        pos <= blanks_end(s, pos) <= s.len(),
    decreases s.len() - pos,
{
    if pos < s.len() && is_blank(s[pos]) {
        lemma_blanks(s, pos + 1);
    }
}

proof fn lemma_digits(s: Seq<char>, pos: int)
    requires
        0 <= pos <= s.len(),
    ensures
        pos <= digits_end(s, pos) <= s.len(),
        forall|i: int| pos <= i < digits_end(s, pos) ==> '0' <= #[trigger] s[i] <= '9',
        digits_end(s, pos) < s.len() ==> !('0' <= s[digits_end(s, pos)] <= '9'),
    decreases s.len() - pos,
{
    if pos < s.len() && '0' <= s[pos] <= '9' {
        lemma_digits(s, pos + 1);
    }
}

struct Parser<'a> {
    chars: &'a [char],
    pos: usize,
}

impl<'a> Parser<'a> {
    spec fn inv(self) -> bool {
        self.pos <= self.chars@.len()
    }

    fn err(&self, what: &'static str) -> (e: ParseError)
        requires
            self.inv(),
        ensures
            e == (ParseError {
                at: encode_utf8(self.chars@.take(self.pos as int)).len() as usize,
                what,
            }),
    {
        let head = string_of(copy_chars(self.chars, 0, self.pos).as_slice());
        proof {
            assert(self.chars@.subrange(0, self.pos as int) =~= self.chars@.take(self.pos as int));
        }
        ParseError { at: head.as_str().as_bytes().len(), what }
    }

    fn at(&self, c: char) -> (r: bool)
        ensures
            r == is_at(self.chars@, self.pos as int, c),
            r ==> self.pos < self.chars@.len() <= usize::MAX,
    {
        self.pos < self.chars.len() && self.chars[self.pos] == c
    }

    fn skip_ws(&mut self)
        requires
            old(self).inv(),
        ensures
            final(self).inv(),
            final(self).chars == old(self).chars,
            final(self).pos == blanks_end(old(self).chars@, old(self).pos as int),
            final(self).pos >= old(self).pos,
    {
        while self.at(' ') || self.at('\t') || self.at('\n') || self.at('\r')
            invariant
                self.inv(),
                self.chars == old(self).chars,
                self.pos >= old(self).pos,
                blanks_end(self.chars@, old(self).pos as int) == blanks_end(
                    self.chars@,
                    self.pos as int,
                ),
            decreases self.chars@.len() - self.pos,
        {
            self.pos = self.pos + 1;
        }
    }

    fn skip_digits(&mut self)
        requires
            old(self).inv(),
        ensures
            final(self).inv(),
            final(self).chars == old(self).chars,
            final(self).pos == digits_end(old(self).chars@, old(self).pos as int),
            final(self).pos >= old(self).pos,
    {
        while self.pos < self.chars.len() && '0' <= self.chars[self.pos] && self.chars[self.pos]
            <= '9'
            invariant
                self.inv(),
                self.chars == old(self).chars,
                self.pos >= old(self).pos,
                digits_end(self.chars@, old(self).pos as int) == digits_end(
                    self.chars@,
                    self.pos as int,
                ),
            decreases self.chars@.len() - self.pos,
        {
            self.pos = self.pos + 1;
        }
    }

    fn literal(&mut self, word: &str, value: Value) -> (r: Result<Value, ParseError>)
        requires
            old(self).inv(),
            word@.len() > 0,
        ensures
            final(self).inv(),
            final(self).chars == old(self).chars,
            match r {
                Ok(v) => word_at(old(self).chars@, old(self).pos as int, word@, value@) == Ok::<
                    (Json, int),
                    ParseError,
                >((v@, final(self).pos as int)) && final(self).pos > old(self).pos,
                Err(e) => word_at(old(self).chars@, old(self).pos as int, word@, value@) == Err::<
                    (Json, int),
                    ParseError,
                >(e),
            },
    {
        let w = chars_of(word);
        if occurs_at(self.chars, w.as_slice(), self.pos) {
            proof {
                assert(self.chars.len() as int == self.chars@.len());
            }
            self.pos = self.pos + w.len();
            Ok(value)
        } else {
            Err(self.err("invalid literal"))
        }
    }

    /// Whether a number, whose parts end where they do, is too large for
    /// double precision.
    fn vast(&self, start: usize, a: usize, b: usize, c: usize, d: usize, e: usize) -> (r: bool)
        requires
            start <= a <= b <= c <= d <= e <= self.chars@.len(),
            number_parts(self.chars@, start as int) == (
                a as int,
                b as int,
                c as int,
                d as int,
                e as int,
            ),
        ensures
            r == is_vast(self.chars@, start as int),
    {
        let ghost s = self.chars@;
        proof {
            lemma_digits(s, a as int);
            if c > b {
                lemma_digits(s, b + 1);
            }
            if d > c {
                lemma_digits(s, d as int);
            }
        }
        let mut digits = copy_chars(self.chars, a, b);
        let ghost whole = digits@;
        let mut i: usize = if c > b {
            b + 1
        } else {
            c
        };
        let first: usize = i;
        let ghost fraction = if c > b {
            s.subrange(b + 1, c as int)
        } else {
            Seq::empty()
        };
        proof {
            assert(s.subrange(first as int, first as int) =~= Seq::empty());
            assert(whole + Seq::<char>::empty() =~= whole);
        }
        while i < c
            invariant
                first <= i <= c <= s.len(),
                s == self.chars@,
                digits@ == whole + s.subrange(first as int, i as int),
            decreases c - i,
        {
            digits.push(self.chars[i]);
            proof {
                assert(digits@ =~= whole + s.subrange(first as int, i + 1));
            }
            i = i + 1;
        }
        let exponent = copy_chars(self.chars, d, e);
        let negative = d > c && self.chars[d - 1] == '-';
        proof {
            assert(s.subrange(first as int, c as int) =~= fraction);
            assert(digits@ == whole + fraction);
            assert(all_digits(digits@)) by {
                assert forall|k: int| 0 <= k < digits@.len() implies '0' <= #[trigger] digits@[k]
                    <= '9' by {
                    if k < whole.len() {
                        assert(digits@[k] == s[a + k]);
                    } else {
                        assert(digits@[k] == s[first + (k - whole.len())]);
                    }
                }
            }
            assert(all_digits(exponent@)) by {
                assert forall|k: int| 0 <= k < exponent@.len() implies '0' <= #[trigger]
                    exponent@[k] <= '9' by {
                    assert(exponent@[k] == s[d + k]);
                }
            }
        }
        rounds_to_infinity(digits.as_slice(), c - first, exponent.as_slice(), negative)
    }

    fn number(&mut self) -> (r: Result<Value, ParseError>)
        requires
            old(self).pos < old(self).chars@.len(),
            old(self).chars@[old(self).pos as int] == '-' || '0' <= old(self).chars@[old(
                self,
            ).pos as int] <= '9',
        ensures
            final(self).inv(),
            final(self).chars == old(self).chars,
            match r {
                Ok(v) => number_at(old(self).chars@, old(self).pos as int) == Ok::<
                    (Json, int),
                    ParseError,
                >((v@, final(self).pos as int)) && final(self).pos > old(self).pos,
                Err(e) => number_at(old(self).chars@, old(self).pos as int) == Err::<
                    (Json, int),
                    ParseError,
                >(e),
            },
    {
        let ghost s = self.chars@;
        let start: usize = self.pos;
        let negative = self.at('-');
        if negative {
            self.pos = self.pos + 1;
        }
        let a: usize = self.pos;
        self.skip_digits();
        let b: usize = self.pos;
        proof {
            lemma_digits(s, a as int);
        }
        if self.at('.') {
            self.pos = self.pos + 1;
            self.skip_digits();
        }
        let c: usize = self.pos;
        if self.at('e') || self.at('E') {
            self.pos = self.pos + 1;
            if self.at('+') || self.at('-') {
                self.pos = self.pos + 1;
            }
        }
        let d: usize = self.pos;
        if d > c {
            self.skip_digits();
        }
        let e: usize = self.pos;
        proof {
            assert(number_parts(s, start as int) == (
                a as int,
                b as int,
                c as int,
                d as int,
                e as int,
            ));
            assert(e > start);
        }
        let is_float = c > b || e > c;
        if !is_float && b > a {
            let digits = copy_chars(self.chars, a, b);
            proof {
                assert(digits@ =~= s.subrange(a as int, b as int));
                assert(all_digits(digits@)) by {
                    assert forall|i: int| 0 <= i < digits@.len() implies '0' <= #[trigger] digits@[i]
                        <= '9' by {
                        assert(digits@[i] == s[a + i]);
                    }
                }
                assert(digits@[0] != '+') by {
                    assert('0' <= digits@[0] <= '9');
                }
            }
            let n = read_number(digits.as_slice(), u64::MAX);
            if negative {
                if let Some(m) = n {
                    if m == 0x8000_0000_0000_0000 {
                        return Ok(Value::Int(i64::MIN));
                    }
                    if m < 0x8000_0000_0000_0000 {
                        return Ok(Value::Int(-(m as i64)));
                    }
                }
            } else if let Some(m) = n {
                if m <= i64::MAX as u64 {
                    return Ok(Value::Int(m as i64));
                }
                return Ok(Value::UInt(m));
            }
        }
        if (b > a || c - b > 1) && (d == c || e > d) {
            if self.vast(start, a, b, c, d, e) {
                return Err(self.err("number out of range"));
            }
            let text = string_of(copy_chars(self.chars, start, e).as_slice());
            Ok(Value::Float(text))
        } else {
            Err(self.err("invalid number"))
        }
    }

    fn hex4(&mut self) -> (r: Result<u32, ParseError>)
        requires
            old(self).inv(),
        ensures
            final(self).inv(),
            final(self).chars == old(self).chars,
            match r {
                Ok(v) => hex_at(old(self).chars@, old(self).pos as int, 4) == Ok::<int, ParseError>(
                    v as int,
                ) && final(self).pos == old(self).pos + 4 && v <= 0xffff,
                Err(e) => hex_at(old(self).chars@, old(self).pos as int, 4) == Err::<
                    int,
                    ParseError,
                >(e),
            },
    {
        let ghost s = self.chars@;
        let ghost start = self.pos as int;
        let mut value: u32 = 0;
        let mut k: u32 = 0;
        while k < 4
            invariant
                k <= 4,
                self.inv(),
                s == self.chars@,
                self.chars == old(self).chars,
                start == old(self).pos,
                self.pos == start + k,
                hex_at(s, start, k as int) == Ok::<int, ParseError>(value as int),
                k == 0 ==> value == 0,
                k == 1 ==> value < 0x10,
                k == 2 ==> value < 0x100,
                k == 3 ==> value < 0x1000,
                k == 4 ==> value < 0x1_0000,
            decreases 4 - k,
        {
            if self.pos >= self.chars.len() {
                proof {
                    lemma_hex_fail(s, start, k as int + 1, 4);
                }
                return Err(self.err("expected 4 hex digits"));
            }
            let c: char = self.chars[self.pos];
            let digit: u32 = if '0' <= c && c <= '9' {
                c as u32 - 48
            } else if 'a' <= c && c <= 'f' {
                c as u32 - 87
            } else if 'A' <= c && c <= 'F' {
                c as u32 - 55
            } else {
                proof {
                    lemma_hex_fail(s, start, k as int + 1, 4);
                }
                return Err(self.err("expected 4 hex digits"));
            };
            value = value * 16 + digit;
            self.pos = self.pos + 1;
            k = k + 1;
        }
        Ok(value)
    }

    fn unicode_escape(&mut self) -> (r: Result<char, ParseError>)
        requires
            old(self).inv(),
        ensures
            final(self).inv(),
            final(self).chars == old(self).chars,
            match r {
                Ok(c) => unicode_at(old(self).chars@, old(self).pos as int) == Ok::<
                    (char, int),
                    ParseError,
                >((c, final(self).pos as int)) && final(self).pos > old(self).pos,
                Err(e) => unicode_at(old(self).chars@, old(self).pos as int) == Err::<
                    (char, int),
                    ParseError,
                >(e),
            },
    {
        let hi: u32 = match self.hex4() {
            Ok(v) => v,
            Err(e) => return Err(e),
        };
        let code: u32 = if 0xd800 <= hi && hi <= 0xdbff {
            if !self.at('\\') {
                return Err(self.err("lone high surrogate"));
            }
            self.pos = self.pos + 1;
            if !self.at('u') {
                return Err(self.err("lone high surrogate"));
            }
            self.pos = self.pos + 1;
            let lo: u32 = match self.hex4() {
                Ok(v) => v,
                Err(e) => return Err(e),
            };
            if !(0xdc00 <= lo && lo <= 0xdfff) {
                return Err(self.err("invalid low surrogate"));
            }
            0x1_0000 + (hi - 0xd800) * 0x400 + (lo - 0xdc00)
        } else if 0xdc00 <= hi && hi <= 0xdfff {
            return Err(self.err("lone low surrogate"));
        } else {
            hi
        };
        match char::from_u32(code) {
            Some(c) => Ok(c),
            None => Err(self.err("invalid unicode escape")),
        }
    }

    fn escape(&mut self) -> (r: Result<char, ParseError>)
        requires
            old(self).inv(),
        ensures
            final(self).inv(),
            final(self).chars == old(self).chars,
            match r {
                Ok(c) => escape_at(old(self).chars@, old(self).pos as int) == Ok::<
                    (char, int),
                    ParseError,
                >((c, final(self).pos as int)) && final(self).pos > old(self).pos,
                Err(e) => escape_at(old(self).chars@, old(self).pos as int) == Err::<
                    (char, int),
                    ParseError,
                >(e),
            },
    {
        let c: char = if self.at('"') {
            '"'
        } else if self.at('\\') {
            '\\'
        } else if self.at('/') {
            '/'
        } else if self.at('b') {
            '\u{08}'
        } else if self.at('f') {
            '\u{0C}'
        } else if self.at('n') {
            '\n'
        } else if self.at('r') {
            '\r'
        } else if self.at('t') {
            '\t'
        } else if self.at('u') {
            self.pos = self.pos + 1;
            return self.unicode_escape();
        } else {
            return Err(self.err("invalid string escape"));
        };
        self.pos = self.pos + 1;
        Ok(c)
    }

    /// The characters of a string, from after its opening quote.
    fn string(&mut self) -> (r: Result<String, ParseError>)
        requires
            old(self).inv(),
        ensures
            final(self).inv(),
            final(self).chars == old(self).chars,
            match r {
                Ok(t) => string_at(old(self).chars@, old(self).pos as int, Seq::empty()) == Ok::<
                    (Seq<char>, int),
                    ParseError,
                >((t@, final(self).pos as int)) && final(self).pos > old(self).pos,
                Err(e) => string_at(old(self).chars@, old(self).pos as int, Seq::empty()) == Err::<
                    (Seq<char>, int),
                    ParseError,
                >(e),
            },
    {
        let ghost s = self.chars@;
        let mut out: String = String::new();
        loop
            invariant
                self.inv(),
                s == self.chars@,
                self.chars == old(self).chars,
                self.pos >= old(self).pos,
                string_at(s, old(self).pos as int, Seq::empty()) == string_at(
                    s,
                    self.pos as int,
                    out@,
                ),
            decreases s.len() - self.pos,
        {
            if self.pos >= self.chars.len() {
                return Err(self.err("unterminated string"));
            }
            let c: char = self.chars[self.pos];
            if c == '"' {
                self.pos = self.pos + 1;
                return Ok(out);
            } else if c == '\\' {
                self.pos = self.pos + 1;
                match self.escape() {
                    Ok(d) => {
                        out.push(d);
                    },
                    Err(e) => return Err(e),
                }
            } else if (c as u32) < 0x20 {
                return Err(self.err("control character in string"));
            } else {
                out.push(c);
                self.pos = self.pos + 1;
            }
        }
    }

    fn value(&mut self, depth: usize) -> (r: Result<Value, ParseError>)
        requires
            old(self).inv(),
            depth <= MAX_DEPTH,
        ensures
            final(self).inv(),
            final(self).chars == old(self).chars,
            match r {
                Ok(v) => value_at(old(self).chars@, old(self).pos as int, depth as int) == Ok::<
                    (Json, int),
                    ParseError,
                >((v@, final(self).pos as int)) && final(self).pos > old(self).pos,
                Err(e) => value_at(old(self).chars@, old(self).pos as int, depth as int) == Err::<
                    (Json, int),
                    ParseError,
                >(e),
            },
        decreases MAX_DEPTH - depth, 1int,
    {
        if self.pos >= self.chars.len() {
            return Err(self.err("expected a JSON value"));
        }
        proof {
            reveal_strlit("true");
            reveal_strlit("false");
            reveal_strlit("null");
        }
        let c: char = self.chars[self.pos];
        if c == '{' {
            self.object(depth)
        } else if c == '[' {
            self.array(depth)
        } else if c == '"' {
            self.pos = self.pos + 1;
            match self.string() {
                Ok(t) => Ok(Value::Str(t)),
                Err(e) => Err(e),
            }
        } else if c == 't' {
            self.literal("true", Value::Bool(true))
        } else if c == 'f' {
            self.literal("false", Value::Bool(false))
        } else if c == 'n' {
            self.literal("null", Value::Null)
        } else if c == '-' || ('0' <= c && c <= '9') {
            self.number()
        } else {
            Err(self.err("expected a JSON value"))
        }
    }

    fn array(&mut self, depth: usize) -> (r: Result<Value, ParseError>)
        requires
            old(self).inv(),
            is_at(old(self).chars@, old(self).pos as int, '['),
            depth <= MAX_DEPTH,
        ensures
            final(self).inv(),
            final(self).chars == old(self).chars,
            match r {
                Ok(v) => value_at(old(self).chars@, old(self).pos as int, depth as int) == Ok::<
                    (Json, int),
                    ParseError,
                >((v@, final(self).pos as int)) && final(self).pos > old(self).pos,
                Err(e) => value_at(old(self).chars@, old(self).pos as int, depth as int) == Err::<
                    (Json, int),
                    ParseError,
                >(e),
            },
        decreases MAX_DEPTH - depth, 0int,
    {
        if depth >= MAX_DEPTH {
            return Err(self.err("nesting too deep"));
        }
        let ghost s = self.chars@;
        let ghost start = self.pos as int;
        let mut items: Vec<Value> = Vec::new();
        proof {
            assert(self.chars.len() as int == s.len());
        }
        self.pos = self.pos + 1;
        let inside: usize = self.pos;
        self.skip_ws();
        if self.at(']') {
            self.pos = self.pos + 1;
            proof {
                assert(jsons(items) =~= Seq::empty());
            }
            return Ok(Value::Array(items));
        }
        self.pos = inside;
        proof {
            assert(jsons(items) =~= Seq::empty());
        }
        loop
            invariant
                self.inv(),
                s == self.chars@,
                self.chars == old(self).chars,
                start == old(self).pos,
                self.pos > start,
                depth < MAX_DEPTH,
                value_at(s, start, depth as int) == (match items_at(
                    s,
                    self.pos as int,
                    depth + 1,
                    jsons(items),
                ) {
                    Ok((items, end)) => Ok((Json::Array(items), end)),
                    Err(e) => Err(e),
                }),
            decreases s.len() - self.pos,
        {
            let ghost seen = jsons(items);
            self.skip_ws();
            let v = match self.value(depth + 1) {
                Ok(v) => v,
                Err(e) => return Err(e),
            };
            let ghost t = v@;
            items.push(v);
            proof {
                assert(jsons(items) =~= seen.push(t));
                lemma_blanks(s, self.pos as int);
            }
            self.skip_ws();
            if self.at(',') {
                self.pos = self.pos + 1;
            } else if self.at(']') {
                self.pos = self.pos + 1;
                return Ok(Value::Array(items));
            } else {
                return Err(self.err("expected ',' or ']'"));
            }
        }
    }

    fn object(&mut self, depth: usize) -> (r: Result<Value, ParseError>)
        requires
            old(self).inv(),
            is_at(old(self).chars@, old(self).pos as int, '{'),
            depth <= MAX_DEPTH,
        ensures
            final(self).inv(),
            final(self).chars == old(self).chars,
            match r {
                Ok(v) => value_at(old(self).chars@, old(self).pos as int, depth as int) == Ok::<
                    (Json, int),
                    ParseError,
                >((v@, final(self).pos as int)) && final(self).pos > old(self).pos,
                Err(e) => value_at(old(self).chars@, old(self).pos as int, depth as int) == Err::<
                    (Json, int),
                    ParseError,
                >(e),
            },
        decreases MAX_DEPTH - depth, 0int,
    {
        if depth >= MAX_DEPTH {
            return Err(self.err("nesting too deep"));
        }
        let ghost s = self.chars@;
        let ghost start = self.pos as int;
        let mut fields: Vec<(String, Value)> = Vec::new();
        proof {
            assert(self.chars.len() as int == s.len());
        }
        self.pos = self.pos + 1;
        let inside: usize = self.pos;
        self.skip_ws();
        if self.at('}') {
            self.pos = self.pos + 1;
            proof {
                assert(json_fields(fields) =~= Seq::empty());
            }
            return Ok(Value::Object(fields));
        }
        self.pos = inside;
        proof {
            assert(json_fields(fields) =~= Seq::empty());
        }
        loop
            invariant
                self.inv(),
                s == self.chars@,
                self.chars == old(self).chars,
                start == old(self).pos,
                self.pos > start,
                depth < MAX_DEPTH,
                value_at(s, start, depth as int) == (match fields_at(
                    s,
                    self.pos as int,
                    depth + 1,
                    json_fields(fields),
                ) {
                    Ok((fields, end)) => Ok((Json::Object(fields), end)),
                    Err(e) => Err(e),
                }),
            decreases s.len() - self.pos,
        {
            let ghost seen = json_fields(fields);
            self.skip_ws();
            if !self.at('"') {
                return Err(self.err("expected a string key"));
            }
            self.pos = self.pos + 1;
            let key = match self.string() {
                Ok(k) => k,
                Err(e) => return Err(e),
            };
            self.skip_ws();
            if !self.at(':') {
                return Err(self.err("expected ':' after key"));
            }
            self.pos = self.pos + 1;
            self.skip_ws();
            let v = match self.value(depth + 1) {
                Ok(v) => v,
                Err(e) => return Err(e),
            };
            let ghost k = key@;
            let ghost t = v@;
            fields.push((key, v));
            proof {
                assert(json_fields(fields) =~= seen.push((k, t)));
                lemma_blanks(s, self.pos as int);
            }
            self.skip_ws();
            if self.at(',') {
                self.pos = self.pos + 1;
            } else if self.at('}') {
                self.pos = self.pos + 1;
                return Ok(Value::Object(fields));
            } else {
                return Err(self.err("expected ',' or '}'"));
            }
        }
    }
}

proof fn lemma_hex_fail(s: Seq<char>, pos: int, k: int, n: int)
    requires
        k <= n,
        hex_at(s, pos, k) is Err,
    ensures
        hex_at(s, pos, n) == hex_at(s, pos, k),
    decreases n - k,
{
    if k < n {
        lemma_hex_fail(s, pos, k, n - 1);
    }
}

/// Parse one JSON value from `input`, rejecting trailing data.
///
/// Numbers that are not integers in range are kept as the text that spells
/// them; how large they are is not looked at.
pub fn parse(input: &str) -> (r: Result<Value, ParseError>)
    ensures
        match r {
            Ok(v) => parsed(input@) == Ok::<Json, ParseError>(v@),
            Err(e) => parsed(input@) == Err::<Json, ParseError>(e),
        },
{
    let chars = chars_of(input);
    let mut parser = Parser { chars: chars.as_slice(), pos: 0 };
    parser.skip_ws();
    let value = match parser.value(0) {
        Ok(v) => v,
        Err(e) => return Err(e),
    };
    parser.skip_ws();
    if parser.pos != parser.chars.len() {
        return Err(parser.err("trailing data after JSON value"));
    }
    Ok(value)
}


// ---------------------------------------------------------------------------
// What parsing owes encoding.

/// Whether the text `t` stands in `s` at `pos`.
pub open spec fn stands(s: Seq<char>, pos: int, t: Seq<char>) -> bool {
    0 <= pos && pos + t.len() <= s.len() && forall|i: int|
        0 <= i < t.len() ==> s[pos + i] == #[trigger] t[i]
}

/// Whether a value can end at `pos`: nothing follows, or a comma or a closing
/// bracket.
pub open spec fn ends_at(s: Seq<char>, pos: int) -> bool {
    pos == s.len() || (0 <= pos < s.len() && (s[pos] == ',' || s[pos] == ']' || s[pos] == '}'))
}

/// Whether a text spells a number that is kept as text.
pub open spec fn is_float_text(t: Seq<char>) -> bool {
    t.len() > 0 && (t[0] == '-' || '0' <= t[0] <= '9') && number_at(t, 0) == Ok::<
        (Json, int),
        ParseError,
    >((Json::Float(t), t.len() as int))
}

impl Json {
    /// Whether a value is one that parsing can give, nested in no more than
    /// `room` containers: integers in range and unsigned only where signed
    /// does not reach, other numbers spelled as numbers.
    pub open spec fn representable(self, room: int) -> bool
        decreases self,
    {
        match self {
            Json::Int(n) => i64::MIN <= n <= i64::MAX,
            Json::UInt(n) => i64::MAX < n <= u64::MAX,
            Json::Float(t) => is_float_text(t),
            Json::Array(items) => room > 0 && forall|i: int|
                0 <= i < items.len() ==> (#[trigger] items[i]).representable(room - 1),
            Json::Object(fields) => room > 0 && forall|i: int|
                0 <= i < fields.len() ==> (#[trigger] fields[i]).1.representable(room - 1),
            _ => true,
        }
    }
}

proof fn lemma_stands_sub(s: Seq<char>, pos: int, a: Seq<char>, b: Seq<char>, t: Seq<char>)
    requires
        stands(s, pos, t),
        t == a + b,
    ensures
        stands(s, pos, a),
        stands(s, pos + a.len(), b),
{
    assert forall|i: int| 0 <= i < a.len() implies s[pos + i] == #[trigger] a[i] by {
        assert(t[i] == a[i]);
        assert(s[pos + i] == t[i]);
    }
    assert forall|i: int| 0 <= i < b.len() implies s[pos + a.len() + i] == #[trigger] b[i] by {
        assert(t[a.len() + i] == b[i]);
        assert(s[pos + (a.len() + i)] == t[a.len() + i]);
    }
}

proof fn lemma_escape_back(s: Seq<char>, pos: int, c: char, seen: Seq<char>)
    requires
        stands(s, pos, escaped(c)),
        pos + escaped(c).len() < s.len(),
    ensures
        string_at(s, pos, seen) == string_at(s, pos + escaped(c).len(), seen.push(c)),
        escaped(c).len() > 0,
{
    let e = escaped(c);
    assert(s[pos + 0] == e[0]);
    if e.len() == 2 {
        assert(s[pos + 1] == e[1]);
    } else if e.len() == 6 {
        assert(s[pos + 1] == e[1]);
        assert(s[pos + 2] == e[2]);
        assert(s[pos + 3] == e[3]);
        assert(s[pos + 4] == e[4]);
        assert(s[pos + 5] == e[5]);
        let n = c as u32 as int;
        reveal_with_fuel(hex_at, 5);
        assert(hex_of(s[pos + 2]) == Some(0int));
        assert(hex_of(s[pos + 3]) == Some(0int));
        assert(hex_of(s[pos + 4]) == Some(n / 16));
        assert(hex_of(s[pos + 5]) == Some(n % 16));
        assert(hex_at(s, pos + 2, 4) == Ok::<int, ParseError>(n));
        assert(n as char == c);
        assert(escape_at(s, pos + 1) == Ok::<(char, int), ParseError>((c, pos + 6)));
    }
}

proof fn lemma_escaped_prefix(t: Seq<char>, k: int)
    requires
        0 <= k < t.len(),
    ensures
        escaped_text(t.take(k + 1)) == escaped_text(t.take(k)) + escaped(t[k]),
{
    assert(t.take(k + 1).drop_last() =~= t.take(k));
}

proof fn lemma_escaped_stands(s: Seq<char>, pos: int, t: Seq<char>, k: int)
    requires
        0 <= k <= t.len(),
        stands(s, pos, escaped_text(t)),
    ensures
        stands(s, pos, escaped_text(t.take(k))),
        escaped_text(t.take(k)).len() <= escaped_text(t).len(),
    decreases t.len() - k,
{
    if k < t.len() {
        lemma_escaped_stands(s, pos, t, k + 1);
        lemma_escaped_prefix(t, k);
        lemma_stands_sub(
            s,
            pos,
            escaped_text(t.take(k)),
            escaped(t[k]),
            escaped_text(t.take(k + 1)),
        );
    } else {
        assert(t.take(k) =~= t);
    }
}

proof fn lemma_string_back(s: Seq<char>, pos: int, t: Seq<char>, k: int)
    requires
        stands(s, pos, escaped_text(t)),
        is_at(s, pos + escaped_text(t).len(), '"'),
        0 <= k <= t.len(),
    ensures
        string_at(s, pos + escaped_text(t.take(k)).len(), t.take(k)) == Ok::<
            (Seq<char>, int),
            ParseError,
        >((t, pos + escaped_text(t).len() + 1)),
    decreases t.len() - k,
{
    lemma_escaped_stands(s, pos, t, k);
    if k < t.len() {
        let here = escaped_text(t.take(k));
        lemma_escaped_stands(s, pos, t, k + 1);
        lemma_escaped_prefix(t, k);
        lemma_stands_sub(s, pos, here, escaped(t[k]), escaped_text(t.take(k + 1)));
        lemma_escape_back(s, pos + here.len(), t[k], t.take(k));
        assert(t.take(k).push(t[k]) =~= t.take(k + 1));
        lemma_string_back(s, pos, t, k + 1);
    } else {
        assert(t.take(k) =~= t);
    }
}

/// A string literal reads as the string it was written from.
proof fn lemma_quoted_back(s: Seq<char>, pos: int, t: Seq<char>)
    requires
        stands(s, pos, quoted(t)),
    ensures
        is_at(s, pos, '"'),
        string_at(s, pos + 1, Seq::empty()) == Ok::<(Seq<char>, int), ParseError>(
            (t, pos + quoted(t).len()),
        ),
{
    let q = quoted(t);
    let e = escaped_text(t);
    assert(s[pos + 0] == q[0]);
    assert(q =~= seq!['"'] + (e + seq!['"']));
    lemma_stands_sub(s, pos, seq!['"'], e + seq!['"'], q);
    lemma_stands_sub(s, pos + 1, e, seq!['"'], e + seq!['"']);
    assert(s[pos + 1 + e.len() + 0] == seq!['"'][0]);
    assert(t.take(0) =~= Seq::empty());
    lemma_string_back(s, pos + 1, t, 0);
}

proof fn lemma_digits_back(s: Seq<char>, a: int, b: int)
    requires
        0 <= a <= b <= s.len(),
        forall|i: int| a <= i < b ==> '0' <= #[trigger] s[i] <= '9',
        b == s.len() || !('0' <= s[b] <= '9'),
    ensures
        digits_end(s, a) == b,
    decreases b - a,
{
    if a < b {
        assert('0' <= s[a] <= '9');
        lemma_digits_back(s, a + 1, b);
    }
}

proof fn lemma_dec_digits(d: Seq<u8>, t: Seq<char>)
    requires
        t.len() == d.len(),
        forall|i: int| 0 <= i < d.len() ==> crate::decimal::is_digit(#[trigger] d[i]),
        forall|i: int| 0 <= i < d.len() ==> #[trigger] t[i] == d[i] as char,
    ensures
        dec_value(t) == crate::decimal::digits_value(d),
        all_digits(t),
    decreases d.len(),
{
    assert forall|i: int| 0 <= i < t.len() implies '0' <= #[trigger] t[i] <= '9' by {
        assert(crate::decimal::is_digit(d[i]));
        assert(t[i] == d[i] as char);
    }
    if d.len() > 0 {
        assert forall|i: int| 0 <= i < d.drop_last().len() implies crate::decimal::is_digit(
            #[trigger] d.drop_last()[i],
        ) by {
            assert(crate::decimal::is_digit(d[i]));
        }
        assert forall|i: int| 0 <= i < d.drop_last().len() implies #[trigger] t.drop_last()[i]
            == d.drop_last()[i] as char by {
            assert(t[i] == d[i] as char);
        }
        lemma_dec_digits(d.drop_last(), t.drop_last());
        assert(t.last() == d.last() as char);
        assert(crate::decimal::is_digit(d[d.len() - 1]));
    }
}

proof fn lemma_decimal_text(n: nat)
    ensures
        decimal_text(n).len() > 0,
        all_digits(decimal_text(n)),
        dec_value(decimal_text(n)) == n,
{
    lemma_decimal(n);
    lemma_dec_digits(decimal(n), decimal_text(n));
}

/// A numeral, with or without a sign, reads as the number it was written from.
proof fn lemma_numeral_back(s: Seq<char>, pos: int, n: nat, negative: bool)
    requires
        stands(
            s,
            pos,
            if negative {
                "-"@ + decimal_text(n)
            } else {
                decimal_text(n)
            },
        ),
        ends_at(
            s,
            pos + decimal_text(n).len() + (if negative {
                1int
            } else {
                0int
            }),
        ),
    ensures
        ({
            let a = pos + (if negative {
                1int
            } else {
                0int
            });
            let e = a + decimal_text(n).len();
            &&& number_parts(s, pos) == (a, e, e, e, e)
            &&& s.subrange(a, e) == decimal_text(n)
            &&& dec_value(decimal_text(n)) == n
            &&& e > a
            &&& (s[pos] == '-' || '0' <= s[pos] <= '9')
        }),
{
    reveal_strlit("-");
    lemma_decimal_text(n);
    let t = decimal_text(n);
    let a = pos + (if negative {
        1int
    } else {
        0int
    });
    let e = a + t.len();
    if negative {
        lemma_stands_sub(s, pos, "-"@, t, "-"@ + t);
        assert(s[pos + 0] == "-"@[0]);
    }
    assert(stands(s, a, t));
    assert forall|i: int| a <= i < e implies '0' <= #[trigger] s[i] <= '9' by {
        assert(s[a + (i - a)] == t[i - a]);
        assert('0' <= t[i - a] <= '9');
    }
    lemma_digits_back(s, a, e);
    assert(s.subrange(a, e) =~= t) by {
        assert forall|i: int| 0 <= i < t.len() implies s.subrange(a, e)[i] == t[i] by {
            assert(s[a + i] == t[i]);
        }
    }
    if !negative {
        assert('0' <= s[a] <= '9');
    }
}

proof fn lemma_digits_embedded(t: Seq<char>, s: Seq<char>, pos: int, p: int)
    requires
        stands(s, pos, t),
        ends_at(s, pos + t.len()),
        0 <= p <= t.len(),
    ensures
        digits_end(s, pos + p) == pos + digits_end(t, p),
        p <= digits_end(t, p) <= t.len(),
    decreases t.len() - p,
{
    if p < t.len() {
        assert(s[pos + p] == t[p]);
        if '0' <= t[p] <= '9' {
            lemma_digits_embedded(t, s, pos, p + 1);
        }
    }
}

/// The parts of a number are where the number is.
#[verifier::spinoff_prover]
proof fn lemma_parts_back(s: Seq<char>, pos: int, t: Seq<char>)
    requires
        stands(s, pos, t),
        ends_at(s, pos + t.len()),
        t.len() > 0,
    ensures
        ({
            let (a, b, c, d, e) = number_parts(t, 0);
            &&& number_parts(s, pos) == (pos + a, pos + b, pos + c, pos + d, pos + e)
            &&& 0 <= a <= b <= c <= d <= e <= t.len()
        }),
{
    assert forall|p: int, c: char|
        0 <= p <= t.len() && (c == '-' || c == '.' || c == 'e' || c == 'E' || c == '+') implies
        #[trigger] is_at(s, pos + p, c) == is_at(t, p, c) by {
        if p < t.len() {
            assert(s[pos + p] == t[p]);
        }
    }
    assert(s[pos + 0] == t[0]);
    let (a, b, c, d, e) = number_parts(t, 0);
    assert(is_at(s, pos + 0, '-') == is_at(t, 0, '-'));
    lemma_digits_embedded(t, s, pos, a);
    assert(is_at(s, pos + b, '.') == is_at(t, b, '.'));
    if is_at(t, b, '.') {
        lemma_digits_embedded(t, s, pos, b + 1);
    }
    assert(is_at(s, pos + c, 'e') == is_at(t, c, 'e'));
    assert(is_at(s, pos + c, 'E') == is_at(t, c, 'E'));
    if is_at(t, c, 'e') || is_at(t, c, 'E') {
        assert(is_at(s, pos + (c + 1), '+') == is_at(t, c + 1, '+'));
        assert(is_at(s, pos + (c + 1), '-') == is_at(t, c + 1, '-'));
        lemma_digits_embedded(t, s, pos, d);
    }
    assert(number_parts(s, pos) == (pos + a, pos + b, pos + c, pos + d, pos + e));
}

/// A number kept as text reads the same wherever a value can end after it.
#[verifier::spinoff_prover]
proof fn lemma_float_back(s: Seq<char>, pos: int, t: Seq<char>)
    requires
        stands(s, pos, t),
        ends_at(s, pos + t.len()),
        is_float_text(t),
    ensures
        number_at(s, pos) == Ok::<(Json, int), ParseError>((Json::Float(t), pos + t.len())),
        s[pos] == '-' || '0' <= s[pos] <= '9',
{
    lemma_parts_back(s, pos, t);
    assert(s[pos + 0] == t[0]);
    let (a, b, c, d, e) = number_parts(t, 0);
    assert(is_at(s, pos + 0, '-') == is_at(t, 0, '-'));
    assert(e == t.len());
    assert(s.subrange(pos + a, pos + b) =~= t.subrange(a, b)) by {
        assert forall|i: int| 0 <= i < b - a implies s.subrange(pos + a, pos + b)[i] == t.subrange(
            a,
            b,
        )[i] by {
            assert(s[pos + (a + i)] == t[a + i]);
        }
    }
    assert(s.subrange(pos, pos + e) =~= t) by {
        assert forall|i: int| 0 <= i < e implies s.subrange(pos, pos + e)[i] == t[i] by {
            assert(s[pos + i] == t[i]);
        }
    }
    assert(t.subrange(0, e) =~= t);
    assert(is_vast(s, pos) == is_vast(t, 0)) by {
        lemma_part_stands(s, pos, t, d, e);
        if c > b {
            lemma_part_stands(s, pos, t, b + 1, c);
        }
        if d > c {
            assert(s[pos + (d - 1)] == t[d - 1]);
        }
    }
}

/// A part of a text is where the text is.
proof fn lemma_part_stands(s: Seq<char>, pos: int, t: Seq<char>, x: int, y: int)
    requires
        stands(s, pos, t),
        0 <= x <= y <= t.len(),
    ensures
        s.subrange(pos + x, pos + y) == t.subrange(x, y),
{
    assert(s.subrange(pos + x, pos + y) =~= t.subrange(x, y)) by {
        assert forall|i: int| 0 <= i < y - x implies s.subrange(pos + x, pos + y)[i] == t.subrange(
            x,
            y,
        )[i] by {
            assert(s[pos + (x + i)] == t[x + i]);
        }
    }
}

/// Where item `k` starts in the text of items.
spec fn item_start(items: Seq<Json>, k: int) -> int {
    items_text(items.take(k)).len() + (if k > 0 {
        1int
    } else {
        0int
    })
}

spec fn sep(k: int) -> Seq<char> {
    if k > 0 {
        seq![',']
    } else {
        Seq::empty()
    }
}

proof fn lemma_items_step(items: Seq<Json>, k: int)
    requires
        0 <= k < items.len(),
    ensures
        items_text(items.take(k + 1)) == items_text(items.take(k)) + (sep(k) + text_of(items[k])),
{
    assert(items.take(k + 1).drop_last() =~= items.take(k));
    if k == 0 {
        assert(items_text(items.take(0)) =~= Seq::empty());
        assert(items_text(items.take(1)) =~= items_text(items.take(0)) + (sep(0) + text_of(
            items[0],
        )));
    } else {
        assert(items_text(items.take(k + 1)) =~= items_text(items.take(k)) + (sep(k) + text_of(
            items[k],
        )));
    }
}

proof fn lemma_items_stand(s: Seq<char>, pos: int, items: Seq<Json>, k: int)
    requires
        0 <= k <= items.len(),
        stands(s, pos, items_text(items)),
    ensures
        stands(s, pos, items_text(items.take(k))),
    decreases items.len() - k,
{
    if k < items.len() {
        lemma_items_stand(s, pos, items, k + 1);
        lemma_items_step(items, k);
        lemma_stands_sub(
            s,
            pos,
            items_text(items.take(k)),
            sep(k) + text_of(items[k]),
            items_text(items.take(k + 1)),
        );
    } else {
        assert(items.take(k) =~= items);
    }
}

spec fn field_start(f: Seq<(Seq<char>, Json)>, k: int) -> int {
    fields_text(f.take(k)).len() + (if k > 0 {
        1int
    } else {
        0int
    })
}

proof fn lemma_fields_step(f: Seq<(Seq<char>, Json)>, k: int)
    requires
        0 <= k < f.len(),
    ensures
        fields_text(f.take(k + 1)) == fields_text(f.take(k)) + (sep(k) + (quoted(f[k].0) + (seq![
            ':',
        ] + text_of(f[k].1)))),
{
    assert(f.take(k + 1).drop_last() =~= f.take(k));
    if k == 0 {
        assert(fields_text(f.take(0)) =~= Seq::empty());
        assert(fields_text(f.take(1)) =~= fields_text(f.take(0)) + (sep(0) + (quoted(f[0].0) + (
        seq![':'] + text_of(f[0].1)))));
    } else {
        assert(fields_text(f.take(k + 1)) =~= fields_text(f.take(k)) + (sep(k) + (quoted(f[k].0) + (
        seq![':'] + text_of(f[k].1)))));
    }
}

proof fn lemma_fields_stand(s: Seq<char>, pos: int, f: Seq<(Seq<char>, Json)>, k: int)
    requires
        0 <= k <= f.len(),
        stands(s, pos, fields_text(f)),
    ensures
        stands(s, pos, fields_text(f.take(k))),
    decreases f.len() - k,
{
    if k < f.len() {
        lemma_fields_stand(s, pos, f, k + 1);
        lemma_fields_step(f, k);
        lemma_stands_sub(
            s,
            pos,
            fields_text(f.take(k)),
            sep(k) + (quoted(f[k].0) + (seq![':'] + text_of(f[k].1))),
            fields_text(f.take(k + 1)),
        );
    } else {
        assert(f.take(k) =~= f);
    }
}

/// The text of a value starts with no white space and no closing bracket.
proof fn lemma_text_start(v: Json, room: int)
    requires
        v.representable(room),
    ensures
        text_of(v).len() > 0,
        !is_blank(text_of(v)[0]),
        text_of(v)[0] != ']',
{
    match v {
        Json::Null => {
            reveal_strlit("null");
        },
        Json::Bool(b) => {
            reveal_strlit("true");
            reveal_strlit("false");
        },
        Json::Int(n) => {
            reveal_strlit("-");
            lemma_decimal_text((if n < 0 {
                -n
            } else {
                n
            }) as nat);
            if n >= 0 {
                assert('0' <= decimal_text(n as nat)[0] <= '9');
            } else {
                assert(text_of(v)[0] == '-');
            }
        },
        Json::UInt(n) => {
            lemma_decimal_text(n as nat);
            assert('0' <= decimal_text(n as nat)[0] <= '9');
        },
        _ => {},
    }
}

proof fn lemma_array_items(items: Seq<Json>, room: int)
    requires
        Json::Array(items).representable(room),
    ensures
        room > 0,
        forall|i: int| 0 <= i < items.len() ==> (#[trigger] items[i]).representable(room - 1),
{
    match Json::Array(items) {
        Json::Array(x) => {
            assert forall|i: int| 0 <= i < x.len() implies (#[trigger] x[i]).representable(
                room - 1,
            ) by {}
        },
        _ => {},
    }
}

proof fn lemma_object_fields(f: Seq<(Seq<char>, Json)>, room: int)
    requires
        Json::Object(f).representable(room),
    ensures
        room > 0,
        forall|i: int| 0 <= i < f.len() ==> (#[trigger] f[i]).1.representable(room - 1),
{
    match Json::Object(f) {
        Json::Object(x) => {
            assert forall|i: int| 0 <= i < x.len() implies (#[trigger] x[i]).1.representable(
                room - 1,
            ) by {}
        },
        _ => {},
    }
}

proof fn lemma_word_back(s: Seq<char>, pos: int, word: Seq<char>, v: Json)
    requires
        stands(s, pos, word),
    ensures
        word_at(s, pos, word, v) == Ok::<(Json, int), ParseError>((v, pos + word.len())),
{
    assert(s.subrange(pos, pos + word.len()) =~= word) by {
        assert forall|i: int| 0 <= i < word.len() implies s.subrange(pos, pos + word.len())[i]
            == word[i] by {
            assert(s[pos + i] == word[i]);
        }
    }
}

/// The text of a value reads as the value, wherever a value can end after it.
#[verifier::rlimit(60)]
proof fn lemma_value_back(s: Seq<char>, pos: int, depth: int, v: Json)
    requires
        stands(s, pos, text_of(v)),
        ends_at(s, pos + text_of(v).len()),
        v.representable(MAX_DEPTH - depth),
    ensures
        value_at(s, pos, depth) == Ok::<(Json, int), ParseError>((v, pos + text_of(v).len())),
    decreases v, 0int,
{
    lemma_text_start(v, MAX_DEPTH - depth);
    let t = text_of(v);
    assert(s[pos + 0] == t[0]);
    match v {
        Json::Null => {
            reveal_strlit("null");
            lemma_word_back(s, pos, "null"@, v);
        },
        Json::Bool(b) => {
            reveal_strlit("true");
            reveal_strlit("false");
            lemma_word_back(s, pos, t, v);
        },
        Json::Int(n) => {
            if n < 0 {
                reveal_strlit("-");
                assert(t.len() == decimal_text((-n) as nat).len() + 1);
                lemma_numeral_back(s, pos, (-n) as nat, true);
            } else {
                lemma_numeral_back(s, pos, n as nat, false);
            }
            assert(number_at(s, pos) == Ok::<(Json, int), ParseError>((v, pos + t.len())));
        },
        Json::UInt(n) => {
            lemma_numeral_back(s, pos, n as nat, false);
            assert(number_at(s, pos) == Ok::<(Json, int), ParseError>((v, pos + t.len())));
        },
        Json::Float(x) => {
            lemma_float_back(s, pos, x);
        },
        Json::Str(x) => {
            lemma_quoted_back(s, pos, x);
        },
        Json::Array(items) => {
            lemma_array_items(items, MAX_DEPTH - depth);
            let body = items_text(items);
            assert(t =~= seq!['['] + (body + seq![']']));
            lemma_stands_sub(s, pos, seq!['['], body + seq![']'], t);
            lemma_stands_sub(s, pos + 1, body, seq![']'], body + seq![']']);
            assert(s[pos + 1 + body.len() + 0] == seq![']'][0]);
            if items.len() == 0 {
                assert(is_at(s, pos + 1, ']'));
                assert(blanks_end(s, pos + 1) == pos + 1);
                assert(items =~= Seq::empty());
                assert(value_at(s, pos, depth) == Ok::<(Json, int), ParseError>((v, pos + t.len())));
            } else {
                assert(items.take(0) =~= Seq::empty());
                lemma_items_back(s, pos + 1, depth + 1, items, 0);
                lemma_items_stand(s, pos + 1, items, 1);
                lemma_items_step(items, 0);
                assert(items_text(items.take(0)) =~= Seq::empty());
                assert(items_text(items.take(1)) =~= text_of(items[0]));
                lemma_text_start(items[0], MAX_DEPTH - depth - 1);
                assert(s[pos + 1 + 0] == items_text(items.take(1))[0]);
                assert(!is_at(s, pos + 1, ']') && !is_blank(s[pos + 1]));
                assert(item_start(items, 0) == 0);
                assert(items_at(s, pos + 1, depth + 1, Seq::empty()) == Ok::<
                    (Seq<Json>, int),
                    ParseError,
                >((items, pos + t.len())));
                assert(value_at(s, pos, depth) is Ok);
            }
        },
        Json::Object(f) => {
            lemma_object_fields(f, MAX_DEPTH - depth);
            let body = fields_text(f);
            assert(t =~= seq!['{'] + (body + seq!['}']));
            lemma_stands_sub(s, pos, seq!['{'], body + seq!['}'], t);
            lemma_stands_sub(s, pos + 1, body, seq!['}'], body + seq!['}']);
            assert(s[pos + 1 + body.len() + 0] == seq!['}'][0]);
            if f.len() == 0 {
                assert(is_at(s, pos + 1, '}'));
                assert(blanks_end(s, pos + 1) == pos + 1);
                assert(f =~= Seq::empty());
                assert(value_at(s, pos, depth) == Ok::<(Json, int), ParseError>((v, pos + t.len())));
            } else {
                assert(f.take(0) =~= Seq::empty());
                lemma_fields_back(s, pos + 1, depth + 1, f, 0);
                lemma_fields_stand(s, pos + 1, f, 1);
                lemma_fields_step(f, 0);
                assert(fields_text(f.take(0)) =~= Seq::empty());
                assert(fields_text(f.take(1))[0] == '"');
                assert(s[pos + 1 + 0] == fields_text(f.take(1))[0]);
                assert(!is_at(s, pos + 1, '}') && !is_blank(s[pos + 1]));
                assert(field_start(f, 0) == 0);
                assert(fields_at(s, pos + 1, depth + 1, Seq::empty()) == Ok::<
                    (Seq<(Seq<char>, Json)>, int),
                    ParseError,
                >((f, pos + t.len())));
                assert(value_at(s, pos, depth) is Ok);
            }
        },
    }
}

#[verifier::rlimit(60)]
proof fn lemma_items_back(s: Seq<char>, pos: int, depth: int, items: Seq<Json>, k: int)
    requires
        stands(s, pos, items_text(items)),
        is_at(s, pos + items_text(items).len(), ']'),
        forall|i: int|
            0 <= i < items.len() ==> (#[trigger] items[i]).representable(MAX_DEPTH - depth),
        0 <= k < items.len(),
    ensures
        items_at(s, pos + item_start(items, k), depth, items.take(k)) == Ok::<
            (Seq<Json>, int),
            ParseError,
        >((items, pos + items_text(items).len() + 1)),
    decreases items, items.len() - k,
{
    let here = items_text(items.take(k));
    let v = items[k];
    let t = text_of(v);
    lemma_items_stand(s, pos, items, k + 1);
    lemma_items_step(items, k);
    let next = items_text(items.take(k + 1));
    lemma_stands_sub(s, pos, here, sep(k) + t, next);
    lemma_stands_sub(s, pos + here.len(), sep(k), t, sep(k) + t);
    let start = pos + item_start(items, k);
    assert(start == pos + here.len() + sep(k).len());
    let end = start + t.len();
    assert(end == pos + next.len());
    if k + 1 < items.len() {
        lemma_items_stand(s, pos, items, k + 2);
        lemma_items_step(items, k + 1);
        let after = sep(k + 1) + text_of(items[k + 1]);
        lemma_stands_sub(s, pos, next, after, items_text(items.take(k + 2)));
        assert(after[0] == ',');
        assert(s[pos + next.len() + 0] == after[0]);
    } else {
        assert(items.take(k + 1) =~= items);
    }
    lemma_text_start(v, MAX_DEPTH - depth);
    assert(s[start + 0] == t[0]);
    lemma_value_back(s, start, depth, v);
    assert(items.take(k).push(v) =~= items.take(k + 1));
    if k + 1 < items.len() {
        lemma_items_back(s, pos, depth, items, k + 1);
    }
}

/// Where field `k` of an object stands: its key, a colon, its value, and after
/// it a comma or the end of the object.
proof fn lemma_field_stands(s: Seq<char>, pos: int, f: Seq<(Seq<char>, Json)>, k: int)
    requires
        stands(s, pos, fields_text(f)),
        is_at(s, pos + fields_text(f).len(), '}'),
        0 <= k < f.len(),
    ensures
        ({
            let start = pos + field_start(f, k);
            let q = quoted(f[k].0);
            let t = text_of(f[k].1);
            let end = start + q.len() + 1 + t.len();
            &&& stands(s, start, q)
            &&& is_at(s, start + q.len(), ':')
            &&& stands(s, start + q.len() + 1, t)
            &&& k + 1 < f.len() ==> is_at(s, end, ',') && end + 1 == pos + field_start(f, k + 1)
            &&& k + 1 == f.len() ==> is_at(s, end, '}') && end == pos + fields_text(f).len()
        }),
{
    let here = fields_text(f.take(k));
    let q = quoted(f[k].0);
    let t = text_of(f[k].1);
    lemma_fields_stand(s, pos, f, k + 1);
    lemma_fields_step(f, k);
    let next = fields_text(f.take(k + 1));
    let tail = seq![':'] + t;
    lemma_stands_sub(s, pos, here, sep(k) + (q + tail), next);
    lemma_stands_sub(s, pos + here.len(), sep(k), q + tail, sep(k) + (q + tail));
    let start = pos + field_start(f, k);
    assert(start == pos + here.len() + sep(k).len());
    lemma_stands_sub(s, start, q, tail, q + tail);
    lemma_stands_sub(s, start + q.len(), seq![':'], t, tail);
    assert(s[start + q.len() + 0] == seq![':'][0]);
    let end = start + q.len() + 1 + t.len();
    assert(end == pos + next.len());
    if k + 1 < f.len() {
        lemma_fields_stand(s, pos, f, k + 2);
        lemma_fields_step(f, k + 1);
        let after = sep(k + 1) + (quoted(f[k + 1].0) + (seq![':'] + text_of(f[k + 1].1)));
        lemma_stands_sub(s, pos, next, after, fields_text(f.take(k + 2)));
        assert(after[0] == ',');
        assert(s[pos + next.len() + 0] == after[0]);
    } else {
        assert(f.take(k + 1) =~= f);
    }
}

#[verifier::rlimit(60)]
#[verifier::spinoff_prover]
proof fn lemma_fields_back(
    s: Seq<char>,
    pos: int,
    depth: int,
    f: Seq<(Seq<char>, Json)>,
    k: int,
)
    requires
        stands(s, pos, fields_text(f)),
        is_at(s, pos + fields_text(f).len(), '}'),
        forall|i: int|
            0 <= i < f.len() ==> (#[trigger] f[i]).1.representable(MAX_DEPTH - depth),
        0 <= k < f.len(),
    ensures
        fields_at(s, pos + field_start(f, k), depth, f.take(k)) == Ok::<
            (Seq<(Seq<char>, Json)>, int),
            ParseError,
        >((f, pos + fields_text(f).len() + 1)),
    decreases f, f.len() - k,
{
    let key = f[k].0;
    let v = f[k].1;
    let q = quoted(key);
    let t = text_of(v);
    lemma_field_stands(s, pos, f, k);
    let start = pos + field_start(f, k);
    let from = start + q.len() + 1;
    lemma_quoted_back(s, start, key);
    lemma_text_start(v, MAX_DEPTH - depth);
    assert(s[from + 0] == t[0]);
    assert(decreases_to!(f => f[k]));
    lemma_value_back(s, from, depth, v);
    assert(f.take(k).push((key, v)) =~= f.take(k + 1));
    if k + 1 < f.len() {
        lemma_fields_back(s, pos, depth, f, k + 1);
    } else {
        assert(f.take(k + 1) =~= f);
    }
}

/// Parsing gives back what was encoded: every value that parsing can give at
/// all survives the round trip, strings with whatever they hold among them.
pub proof fn law_parse_inverts_encode(v: Json)
    requires
        v.representable(MAX_DEPTH as int),
    ensures
        parsed(text_of(v)) == Ok::<Json, ParseError>(v),
{
    let s = text_of(v);
    lemma_text_start(v, MAX_DEPTH as int);
    assert(stands(s, 0, s));
    lemma_value_back(s, 0, 0, v);
}

} // verus!
