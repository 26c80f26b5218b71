//! Bencode codec.
//!
//! Decodes .torrent metainfo and clove's own resume files, so it is written
//! for hostile input: hard depth limit, strict integer and length syntax,
//! duplicate dictionary keys rejected, and byte-string lengths checked
//! against the remaining input before anything is allocated.
//!
//! Out-of-order dictionary keys are tolerated on decode; duplicate keys are
//! not. Encoding is always canonical (sorted keys), so decoding and encoding
//! again is not byte-identical for non-canonical input: anything
//! hash-sensitive must hash the raw input bytes, obtained via [`raw_entry`].
use vstd::prelude::*;
#[allow(unused_imports)]
use vstd::string::*;
#[allow(unused_imports)]
use vstd::utf8::*;
use std::ops::Range;
use crate::decimal::{
    decimal, decimal_digits, decimal_text, digit_run_end, digits_value, is_digit, lemma_decimal,
    lemma_digit_run, lemma_digit_run_end, lemma_digits_monotone, push_decimal,
};
use crate::strings::{bytes_eq, copy_range, push_all, utf8_text};

verus! {

/// Maximum nesting depth the decoder accepts.
pub const MAX_DEPTH: u32 = 32;

/// A bencode value.
#[derive(Debug, PartialEq, Eq)]
pub enum Value {
    /// Byte string; not necessarily UTF-8.
    Bytes(Vec<u8>),
    /// Integer. The wire format is unbounded; clove bounds it to `i64`.
    Int(i64),
    /// List.
    List(Vec<Value>),
    /// Dictionary, with its keys sorted, which makes encoding canonical.
    Dict(Dict),
}

/// A dictionary: byte-string keys in strictly ascending order, each with its
/// value.
#[derive(Debug, PartialEq, Eq)]
pub struct Dict {
    entries: Vec<(Vec<u8>, Value)>,
}

/// Decode error: what went wrong and the input offset where it did.
#[derive(Clone, Copy, Debug, PartialEq, Eq)]
pub struct Error {
    /// Byte offset into the input at the point of failure.
    pub offset: usize,
    /// What was wrong there.
    pub kind: ErrorKind,
}

/// The kinds of malformed input the decoder rejects.
#[derive(Clone, Copy, Debug, PartialEq, Eq)]
pub enum ErrorKind {
    /// Input ended before the value did.
    Truncated,
    /// A complete value followed by leftover bytes.
    TrailingData,
    /// Malformed integer: no digits, leading zeros, `-0`, or outside `i64`.
    BadInt,
    /// Malformed byte-string length prefix.
    BadLength,
    /// Dictionary key that is not a byte string, or repeats an earlier key.
    BadKey,
    /// Nesting deeper than [`MAX_DEPTH`].
    TooDeep,
    /// A byte that cannot start a value.
    BadValueStart,
}

// ---------------------------------------------------------------------------
// The model of a value, and its canonical encoding.

/// What a [`Value`] stands for.
#[verifier::ext_equal]
pub enum Tree {
    Bytes(Seq<u8>),
    Int(int),
    List(Seq<Tree>),
    Dict(Seq<(Seq<u8>, Tree)>),
}

/// The tree of a value.
pub open spec fn tree(v: Value) -> Tree
    decreases v,
{
    match v {
        Value::Bytes(b) => Tree::Bytes(b@),
        Value::Int(i) => Tree::Int(i as int),
        Value::List(items) => Tree::List(trees(items)),
        Value::Dict(d) => Tree::Dict(dict_entries(d)),
    }
}

/// The trees of a list's items.
pub open spec fn trees(items: Vec<Value>) -> Seq<Tree>
    decreases items,
{
    Seq::new(
        items@.len(),
        |i: int|
            if 0 <= i < items@.len() {
                tree(items@[i])
            } else {
                Tree::Int(0)
            },
    )
}

/// The entries of a dictionary, in the order of their keys.
pub closed spec fn dict_entries(d: Dict) -> Seq<(Seq<u8>, Tree)>
    decreases d,
{
    Seq::new(
        d.entries@.len(),
        |i: int|
            if 0 <= i < d.entries@.len() {
                (d.entries@[i].0@, tree(d.entries@[i].1))
            } else {
                (Seq::empty(), Tree::Int(0))
            },
    )
}

impl View for Value {
    type V = Tree;

    open spec fn view(&self) -> Tree {
        tree(*self)
    }
}

impl View for Dict {
    type V = Seq<(Seq<u8>, Tree)>;

    open spec fn view(&self) -> Seq<(Seq<u8>, Tree)> {
        dict_entries(*self)
    }
}

impl Clone for Value {
    fn clone(&self) -> (r: Value)
        ensures
            r@ == self@,
    {
        copy_value(self)
    }
}

impl Clone for Dict {
    fn clone(&self) -> (r: Dict)
        ensures
            r@ == self@,
    {
        copy_dict(self)
    }
}

fn copy_value(v: &Value) -> (r: Value)
    ensures
        r@ == v@,
    decreases *v,
{
    match v {
        Value::Bytes(b) => {
            let copy = copy_range(b.as_slice(), 0, b.len());
            proof {
                assert(copy@ =~= b@);
            }
            Value::Bytes(copy)
        },
        Value::Int(i) => Value::Int(*i),
        Value::List(items) => {
            let mut copies: Vec<Value> = Vec::new();
            let mut i: usize = 0;
            while i < items.len()
                invariant
                    i <= items@.len(),
                    *v == Value::List(*items),
                    copies@.len() == i,
                    forall|j: int| 0 <= j < i ==> (#[trigger] copies@[j])@ == items@[j]@,
                decreases items.len() - i,
            {
                proof {
                    assert(v->List_0 == *items);
                    assert(decreases_to!(*items => items@[i as int]));
                }
                copies.push(copy_value(&items[i]));
                i = i + 1;
            }
            proof {
                assert(trees(copies) =~= trees(*items));
            }
            Value::List(copies)
        },
        Value::Dict(d) => Value::Dict(copy_dict(d)),
    }
}

fn copy_dict(d: &Dict) -> (r: Dict)
    ensures
        r@ == d@,
    decreases *d,
{
    proof {
        use_type_invariant(d);
    }
    let mut entries: Vec<(Vec<u8>, Value)> = Vec::new();
    let mut i: usize = 0;
    while i < d.entries.len()
        invariant
            i <= d.entries@.len(),
            entries@.len() == i,
            forall|j: int|
                0 <= j < i ==> (#[trigger] entries@[j]).0@ == d.entries@[j].0@ && entries@[j].1@
                    == d.entries@[j].1@,
        decreases d.entries.len() - i,
    {
        proof {
            assert(decreases_to!(*d => d.entries));
            assert(decreases_to!(d.entries => d.entries@[i as int]));
        }
        let key = copy_range(d.entries[i].0.as_slice(), 0, d.entries[i].0.len());
        proof {
            assert(key@ =~= d.entries@[i as int].0@);
        }
        entries.push((key, copy_value(&d.entries[i].1)));
        i = i + 1;
    }
    proof {
        assert(dict_entries(Dict { entries }) =~= dict_entries(*d));
    }
    Dict { entries }
}

/// Lexicographic order on byte strings, in which a prefix comes first.
pub open spec fn lex_less(a: Seq<u8>, b: Seq<u8>) -> bool
    decreases a.len(),
{
    if b.len() == 0 {
        false
    } else if a.len() == 0 {
        true
    } else if a[0] != b[0] {
        a[0] < b[0]
    } else {
        lex_less(a.drop_first(), b.drop_first())
    }
}

/// Whether the keys stand in strictly ascending order.
pub open spec fn ascending(e: Seq<(Seq<u8>, Tree)>) -> bool {
    forall|i: int, j: int|
        0 <= i < j < e.len() ==> lex_less((#[trigger] e[i]).0, (#[trigger] e[j]).0)
}

/// The value stored under `key`.
pub open spec fn lookup(e: Seq<(Seq<u8>, Tree)>, key: Seq<u8>) -> Option<Tree>
    decreases e.len(),
{
    if e.len() == 0 {
        None
    } else if e.last().0 == key {
        Some(e.last().1)
    } else {
        lookup(e.drop_last(), key)
    }
}

/// Whether some entry has the key `key`.
pub open spec fn has_key(e: Seq<(Seq<u8>, Tree)>, key: Seq<u8>) -> bool {
    exists|i: int| 0 <= i < e.len() && (#[trigger] e[i]).0 == key
}

/// The first position at or after `i` whose key is not below `key`.
pub open spec fn rank(e: Seq<(Seq<u8>, Tree)>, key: Seq<u8>, i: int) -> int
    decreases e.len() - i,
{
    if 0 <= i < e.len() && lex_less(e[i].0, key) {
        rank(e, key, i + 1)
    } else {
        i
    }
}

/// The entries with one more, at the place its key belongs.
pub open spec fn with_entry(e: Seq<(Seq<u8>, Tree)>, key: Seq<u8>, t: Tree) -> Seq<
    (Seq<u8>, Tree),
> {
    e.insert(rank(e, key, 0), (key, t))
}

/// The entries once `t` is stored under `key`.
pub open spec fn stored(e: Seq<(Seq<u8>, Tree)>, key: Seq<u8>, t: Tree) -> Seq<(Seq<u8>, Tree)> {
    if has_key(e, key) {
        e.update(rank(e, key, 0), (key, t))
    } else {
        with_entry(e, key, t)
    }
}

impl Tree {
    /// The value stored under `key`, if this is a dictionary that has one.
    pub open spec fn get(self, key: Seq<u8>) -> Option<Tree> {
        match self {
            Tree::Dict(e) => lookup(e, key),
            _ => None,
        }
    }

    /// Whether every integer fits an `i64`, every length a `usize`, and every
    /// dictionary has its keys in ascending order.
    pub open spec fn well_formed(self) -> bool
        decreases self,
    {
        match self {
            Tree::Bytes(b) => b.len() <= usize::MAX,
            Tree::Int(i) => i64::MIN <= i <= i64::MAX,
            Tree::List(items) => forall|i: int|
                0 <= i < items.len() ==> (#[trigger] items[i]).well_formed(),
            Tree::Dict(e) => ascending(e) && forall|i: int|
                0 <= i < e.len() ==> (#[trigger] e[i]).0.len() <= usize::MAX
                    && e[i].1.well_formed(),
        }
    }

    /// Whether no value is nested in more than `room` containers, itself
    /// counted.
    pub open spec fn fits(self, room: int) -> bool
        decreases self,
    {
        &&& room > 0
        &&& match self {
            Tree::Bytes(_) => true,
            Tree::Int(_) => true,
            Tree::List(items) => forall|i: int|
                0 <= i < items.len() ==> (#[trigger] items[i]).fits(room - 1),
            Tree::Dict(e) => forall|i: int|
                0 <= i < e.len() ==> (#[trigger] e[i]).1.fits(room - 1),
        }
    }
}

/// A byte string on the wire: its length in decimal, a colon, its bytes.
pub open spec fn bytes_encoding(b: Seq<u8>) -> Seq<u8> {
    decimal(b.len()).push((':' as u8)) + b
}

/// A signed integer in decimal.
pub open spec fn signed_decimal(i: int) -> Seq<u8> {
    if i < 0 {
        seq![('-' as u8)] + decimal((-i) as nat)
    } else {
        decimal(i as nat)
    }
}

/// The canonical encoding of a value.
pub open spec fn encoding(t: Tree) -> Seq<u8>
    decreases t,
{
    match t {
        Tree::Bytes(b) => bytes_encoding(b),
        Tree::Int(i) => seq![('i' as u8)] + signed_decimal(i) + seq![('e' as u8)],
        Tree::List(items) => seq![('l' as u8)] + items_encoding(items) + seq![('e' as u8)],
        Tree::Dict(e) => seq![('d' as u8)] + entries_encoding(e) + seq![('e' as u8)],
    }
}

/// The encodings of the items, one after the other.
pub open spec fn items_encoding(items: Seq<Tree>) -> Seq<u8>
    decreases items,
{
    if items.len() == 0 {
        Seq::empty()
    } else {
        items_encoding(items.drop_last()) + encoding(items.last())
    }
}

/// The encodings of the keys and values, one after the other.
pub open spec fn entries_encoding(e: Seq<(Seq<u8>, Tree)>) -> Seq<u8>
    decreases e,
{
    if e.len() == 0 {
        Seq::empty()
    } else {
        entries_encoding(e.drop_last()) + bytes_encoding(e.last().0) + encoding(e.last().1)
    }
}

// ---------------------------------------------------------------------------
// The grammar: what stands at a position of the input.

/// A failure at a position.
pub open spec fn failed<T>(pos: int, kind: ErrorKind) -> Result<T, Error> {
    Err(Error { offset: pos as usize, kind })
}

/// The integer that starts at `pos`, and the position after it.
pub open spec fn int_at(s: Seq<u8>, pos: int) -> Result<(int, int), Error> {
    let negative = pos + 1 < s.len() && s[pos + 1] == ('-' as u8);
    let from = if negative { pos + 2 } else { pos + 1 };
    let end = digit_run_end(s, from);
    let n = digits_value(s.subrange(from, end));
    if n > 0x8000_0000_0000_0000 {
        failed(pos, ErrorKind::BadInt)
    } else if end >= s.len() {
        failed(s.len() as int, ErrorKind::Truncated)
    } else if s[end] != ('e' as u8) || end == from || (end - from > 1 && s[from] == ('0' as u8)) || (negative && n
        == 0) || (!negative && n == 0x8000_0000_0000_0000) {
        failed(pos, ErrorKind::BadInt)
    } else {
        Ok((if negative { -n } else { n as int }, end + 1))
    }
}

/// The span of the byte string whose length prefix starts at `pos`.
pub open spec fn span_of_bytes_at(s: Seq<u8>, pos: int) -> Result<(int, int), Error> {
    let end = digit_run_end(s, pos);
    let n = digits_value(s.subrange(pos, end));
    if n > usize::MAX {
        failed(pos, ErrorKind::BadLength)
    } else if end >= s.len() {
        failed(s.len() as int, ErrorKind::Truncated)
    } else if s[end] != (':' as u8) || end == pos || (end - pos > 1 && s[pos] == ('0' as u8)) {
        failed(pos, ErrorKind::BadLength)
    } else if end + 1 + n > s.len() {
        failed(end + 1, ErrorKind::Truncated)
    } else {
        Ok((end + 1, end + 1 + n))
    }
}

/// The byte string that starts at `pos`, and the position after it.
pub open spec fn bytes_at(s: Seq<u8>, pos: int) -> Result<(Seq<u8>, int), Error> {
    match span_of_bytes_at(s, pos) {
        Ok((from, to)) => Ok((s.subrange(from, to), to)),
        Err(e) => Err(e),
    }
}

/// The value that starts at `pos`, inside `depth` containers, and the
/// position after it.
pub open spec fn value_at(s: Seq<u8>, pos: int, depth: int) -> Result<(Tree, int), Error>
    decreases MAX_DEPTH - depth, s.len() - pos, 0int,
{
    if depth >= MAX_DEPTH {
        failed(pos, ErrorKind::TooDeep)
    } else if pos >= s.len() {
        failed(pos, ErrorKind::Truncated)
    } else if s[pos] == ('i' as u8) {
        match int_at(s, pos) {
            Ok((i, end)) => Ok((Tree::Int(i), end)),
            Err(e) => Err(e),
        }
    } else if is_digit(s[pos]) {
        match bytes_at(s, pos) {
            Ok((b, end)) => Ok((Tree::Bytes(b), end)),
            Err(e) => Err(e),
        }
    } else if s[pos] == ('l' as u8) {
        match items_at(s, pos + 1, depth + 1, Seq::empty()) {
            Ok((items, end)) => Ok((Tree::List(items), end)),
            Err(e) => Err(e),
        }
    } else if s[pos] == ('d' as u8) {
        match entries_at(s, pos + 1, depth + 1, Seq::empty()) {
            Ok((entries, end)) => Ok((Tree::Dict(entries), end)),
            Err(e) => Err(e),
        }
    } else {
        failed(pos, ErrorKind::BadValueStart)
    }
}

/// The items `seen` and those from `pos` up to the closing `e`, and the
/// position after it.
pub open spec fn items_at(s: Seq<u8>, pos: int, depth: int, seen: Seq<Tree>) -> Result<
    (Seq<Tree>, int),
    Error,
>
    decreases MAX_DEPTH - depth, s.len() - pos, 1int,
{
    if pos >= s.len() {
        failed(pos, ErrorKind::Truncated)
    } else if s[pos] == ('e' as u8) {
        Ok((seen, pos + 1))
    } else {
        match value_at(s, pos, depth) {
            Ok((t, end)) => if pos < end <= s.len() {
                items_at(s, end, depth, seen.push(t))
            } else {
                failed(pos, ErrorKind::Truncated)
            },
            Err(e) => Err(e),
        }
    }
}

/// The entries `seen` and those from `pos` up to the closing `e`, sorted by
/// key, and the position after it.
pub open spec fn entries_at(
    s: Seq<u8>,
    pos: int,
    depth: int,
    seen: Seq<(Seq<u8>, Tree)>,
) -> Result<(Seq<(Seq<u8>, Tree)>, int), Error>
    decreases MAX_DEPTH - depth, s.len() - pos, 1int,
{
    if pos >= s.len() {
        failed(pos, ErrorKind::Truncated)
    } else if s[pos] == ('e' as u8) {
        Ok((seen, pos + 1))
    } else if !is_digit(s[pos]) {
        failed(pos, ErrorKind::BadKey)
    } else {
        match bytes_at(s, pos) {
            Ok((key, mid)) => if pos < mid <= s.len() {
                match value_at(s, mid, depth) {
                    Ok((t, end)) => if has_key(seen, key) {
                        failed(pos, ErrorKind::BadKey)
                    } else if mid < end <= s.len() {
                        entries_at(s, end, depth, with_entry(seen, key, t))
                    } else {
                        failed(pos, ErrorKind::Truncated)
                    },
                    Err(e) => Err(e),
                }
            } else {
                failed(pos, ErrorKind::Truncated)
            },
            Err(e) => Err(e),
        }
    }
}

/// The value the whole input encodes.
pub open spec fn decoded(s: Seq<u8>) -> Result<Tree, Error> {
    match value_at(s, 0, 0) {
        Ok((t, end)) => if end == s.len() {
            Ok(t)
        } else {
            failed(end, ErrorKind::TrailingData)
        },
        Err(e) => Err(e),
    }
}

/// Where the value stored under `key` is encoded, among the dictionary
/// entries from `pos` on.
pub open spec fn entry_span_at(s: Seq<u8>, pos: int, key: Seq<u8>) -> Option<(int, int)>
    decreases s.len() - pos,
{
    if pos >= s.len() || s[pos] == ('e' as u8) {
        None
    } else {
        match bytes_at(s, pos) {
            Ok((k, mid)) => match value_at(s, mid, 1) {
                Ok((t, end)) => if k == key {
                    Some((mid, end))
                } else if pos < end <= s.len() {
                    entry_span_at(s, end, key)
                } else {
                    None
                },
                Err(_) => None,
            },
            Err(_) => None,
        }
    }
}

/// Where the value stored under `key` in the top-level dictionary is encoded.
pub open spec fn entry_span(s: Seq<u8>, key: Seq<u8>) -> Option<(int, int)> {
    if s.len() > 0 && s[0] == ('d' as u8) {
        entry_span_at(s, 1, key)
    } else {
        None
    }
}

/// Whether one of the dictionary entries from `pos` on starts at `p`.
pub open spec fn entry_starts_at(s: Seq<u8>, pos: int, p: int) -> bool
    decreases s.len() - pos,
{
    0 <= pos < s.len() && s[pos] != ('e' as u8) && (pos == p || match bytes_at(s, pos) {
        Ok((_, mid)) => match value_at(s, mid, 1) {
            Ok((_, end)) => pos < end <= s.len() && entry_starts_at(s, end, p),
            Err(_) => false,
        },
        Err(_) => false,
    })
}

/// What an executable result says in terms of the model.
pub open spec fn reads_as(r: Result<Value, Error>, m: Result<Tree, Error>) -> bool {
    match r {
        Ok(v) => m == Ok::<Tree, Error>(v@),
        Err(e) => m == Err::<Tree, Error>(e),
    }
}


// ---------------------------------------------------------------------------
// Facts about the order of keys.

pub proof fn lemma_lex_irreflexive(a: Seq<u8>)
    ensures
        !lex_less(a, a),
    decreases a.len(),
{
    if a.len() > 0 {
        lemma_lex_irreflexive(a.drop_first());
    }
}

pub proof fn lemma_lex_transitive(a: Seq<u8>, b: Seq<u8>, c: Seq<u8>)
    requires
        lex_less(a, b),
        lex_less(b, c),
    ensures
        lex_less(a, c),
    decreases a.len(),
{
    if a.len() > 0 && b.len() > 0 && c.len() > 0 && a[0] == b[0] && b[0] == c[0] {
        lemma_lex_transitive(a.drop_first(), b.drop_first(), c.drop_first());
    }
}

pub proof fn lemma_lex_total(a: Seq<u8>, b: Seq<u8>)
    ensures
        lex_less(a, b) || a == b || lex_less(b, a),
    decreases a.len(),
{
    if a.len() == 0 && b.len() == 0 {
        assert(a =~= b);
    } else if a.len() > 0 && b.len() > 0 && a[0] == b[0] {
        lemma_lex_total(a.drop_first(), b.drop_first());
        if a.drop_first() == b.drop_first() {
            assert(a =~= seq![a[0]] + a.drop_first());
            assert(b =~= seq![b[0]] + b.drop_first());
        }
    }
}

/// Where `rank` stops, and what lies on both sides of it.
proof fn lemma_rank(e: Seq<(Seq<u8>, Tree)>, key: Seq<u8>, i: int)
    requires
        0 <= i <= e.len(),
        forall|j: int| 0 <= j < i ==> lex_less((#[trigger] e[j]).0, key),
    ensures
        i <= rank(e, key, i) <= e.len(),
        forall|j: int| 0 <= j < rank(e, key, i) ==> lex_less((#[trigger] e[j]).0, key),
        rank(e, key, i) < e.len() ==> !lex_less(e[rank(e, key, i)].0, key),
    decreases e.len() - i,
{
    if i < e.len() && lex_less(e[i].0, key) {
        lemma_rank(e, key, i + 1);
    }
}

/// In an ascending dictionary a key is present exactly where `rank` points.
proof fn lemma_rank_finds(e: Seq<(Seq<u8>, Tree)>, key: Seq<u8>)
    requires
        ascending(e),
    ensures
        0 <= rank(e, key, 0) <= e.len(),
        has_key(e, key) <==> (rank(e, key, 0) < e.len() && e[rank(e, key, 0)].0 == key),
        forall|j: int| 0 <= j < rank(e, key, 0) ==> lex_less((#[trigger] e[j]).0, key),
        !has_key(e, key) ==> forall|j: int|
            rank(e, key, 0) <= j < e.len() ==> lex_less(key, (#[trigger] e[j]).0),
        has_key(e, key) ==> forall|j: int|
            rank(e, key, 0) < j < e.len() ==> lex_less(key, (#[trigger] e[j]).0),
{
    lemma_rank(e, key, 0);
    lemma_lex_irreflexive(key);
    let r = rank(e, key, 0);
    if r < e.len() {
        lemma_lex_total(e[r].0, key);
        assert forall|j: int| r < j < e.len() implies lex_less(key, (#[trigger] e[j]).0) by {
            assert(lex_less(e[r].0, e[j].0));
            if e[r].0 != key {
                lemma_lex_transitive(key, e[r].0, e[j].0);
            }
        }
    }
}

/// An entry put at its place keeps the keys ascending.
proof fn lemma_with_entry_ascending(e: Seq<(Seq<u8>, Tree)>, key: Seq<u8>, t: Tree)
    requires
        ascending(e),
        !has_key(e, key),
    ensures
        ascending(with_entry(e, key, t)),
{
    lemma_rank_finds(e, key);
}

/// In an ascending dictionary `lookup` finds the entry at any position.
pub proof fn lemma_lookup_at(e: Seq<(Seq<u8>, Tree)>, i: int)
    requires
        ascending(e),
        0 <= i < e.len(),
    ensures
        lookup(e, e[i].0) == Some(e[i].1),
    decreases e.len(),
{
    lemma_lex_irreflexive(e[i].0);
    if i < e.len() - 1 {
        assert(lex_less(e[i].0, e[e.len() - 1].0));
        assert(e.drop_last()[i] == e[i]);
        lemma_lookup_at(e.drop_last(), i);
    }
}

/// `lookup` finds nothing exactly when no entry has the key.
pub proof fn lemma_lookup_none(e: Seq<(Seq<u8>, Tree)>, key: Seq<u8>)
    ensures
        lookup(e, key) is None <==> !has_key(e, key),
    decreases e.len(),
{
    if e.len() > 0 {
        lemma_lookup_none(e.drop_last(), key);
        if e.last().0 == key {
            assert(e[e.len() - 1].0 == key);
        } else {
            if has_key(e, key) {
                let i = choose|i: int| 0 <= i < e.len() && (#[trigger] e[i]).0 == key;
                assert(e.drop_last()[i].0 == key);
            }
            if has_key(e.drop_last(), key) {
                let i = choose|i: int| 0 <= i < e.drop_last().len() && (#[trigger] e.drop_last()[i]).0 == key;
                assert(e[i].0 == key);
            }
        }
    }
}

// ---------------------------------------------------------------------------
// Dictionaries.

/// Whether `a` comes before `b`.
pub fn key_less(a: &[u8], b: &[u8]) -> (r: bool)
    ensures
        r == lex_less(a@, b@),
{
    let mut i: usize = 0;
    proof {
        assert(a@.skip(0) =~= a@);
        assert(b@.skip(0) =~= b@);
    }
    while i < a.len() && i < b.len()
        invariant
            i <= a.len(),
            i <= b.len(),
            lex_less(a@, b@) == lex_less(a@.skip(i as int), b@.skip(i as int)),
        decreases a.len() - i,
    {
        if a[i] != b[i] {
            return a[i] < b[i];
        }
        proof {
            assert(a@.skip(i as int).drop_first() =~= a@.skip(i as int + 1));
            assert(b@.skip(i as int).drop_first() =~= b@.skip(i as int + 1));
        }
        i = i + 1;
    }
    i < b.len()
}

impl Dict {
    #[verifier::type_invariant]
    spec fn keys_ascend(self) -> bool {
        ascending(dict_entries(self))
    }

    /// An empty dictionary.
    pub fn new() -> (d: Dict)
        ensures
            d@ == Seq::<(Seq<u8>, Tree)>::empty(),
    {
        let entries: Vec<(Vec<u8>, Value)> = Vec::new();
        proof {
            assert(dict_entries(Dict { entries }) =~= Seq::empty());
        }
        Dict { entries }
    }

    /// The number of entries.
    pub fn len(&self) -> (n: usize)
        ensures
            n == self@.len(),
    {
        self.entries.len()
    }

    /// Whether there are no entries.
    pub fn is_empty(&self) -> (r: bool)
        ensures
            r == (self@.len() == 0),
    {
        self.entries.len() == 0
    }

    /// The key of the entry at position `i`.
    pub fn key_at(&self, i: usize) -> (key: &Vec<u8>)
        requires
            i < self@.len(),
        ensures
            key@ == self@[i as int].0,
    {
        &self.entries[i].0
    }

    /// The value of the entry at position `i`.
    pub fn value_at(&self, i: usize) -> (value: &Value)
        requires
            i < self@.len(),
        ensures
            value@ == self@[i as int].1,
    {
        &self.entries[i].1
    }

    fn rank_of(&self, key: &[u8]) -> (i: usize)
        ensures
            i == rank(self@, key@, 0),
            i <= self@.len(),
    {
        let mut i: usize = 0;
        while i < self.entries.len() && key_less(self.entries[i].0.as_slice(), key)
            invariant
                i <= self.entries.len(),
                rank(self@, key@, 0) == rank(self@, key@, i as int),
            decreases self.entries.len() - i,
        {
            i = i + 1;
        }
        i
    }

    /// The value stored under `key`.
    pub fn get(&self, key: &[u8]) -> (r: Option<&Value>)
        ensures
            match r {
                Some(v) => lookup(self@, key@) == Some(v@),
                None => lookup(self@, key@) is None,
            },
    {
        proof {
            use_type_invariant(&*self);
            lemma_rank_finds(self@, key@);
            lemma_lookup_none(self@, key@);
        }
        let i: usize = self.rank_of(key);
        if i < self.entries.len() && bytes_eq(self.entries[i].0.as_slice(), key) {
            proof {
                lemma_lookup_at(self@, i as int);
            }
            Some(&self.entries[i].1)
        } else {
            None
        }
    }

    /// Whether some entry has the key `key`.
    pub fn contains_key(&self, key: &[u8]) -> (r: bool)
        ensures
            r == has_key(self@, key@),
    {
        proof {
            lemma_lookup_none(self@, key@);
        }
        self.get(key).is_some()
    }

    /// Stores `value` under `key`, and hands back what was there.
    pub fn insert(&mut self, key: Vec<u8>, value: Value) -> (displaced: Option<Value>)
        ensures
            final(self)@ == stored(old(self)@, key@, value@),
            match displaced {
                None => !has_key(old(self)@, key@),
                Some(v) => has_key(old(self)@, key@) && lookup(old(self)@, key@) == Some(v@),
            },
    {
        let ghost before = self@;
        proof {
            use_type_invariant(&*self);
            lemma_rank_finds(before, key@);
        }
        let i: usize = self.rank_of(key.as_slice());
        let ghost k = key@;
        let ghost v = value@;
        let mut entries: Vec<(Vec<u8>, Value)> = Vec::new();
        std::mem::swap(&mut self.entries, &mut entries);
        if i < entries.len() && bytes_eq(entries[i].0.as_slice(), key.as_slice()) {
            proof {
                lemma_lookup_at(before, i as int);
                assert(ascending(before.update(i as int, (k, v))));
            }
            let mut slot = (key, value);
            std::mem::swap(&mut entries[i], &mut slot);
            proof {
                assert(dict_entries(Dict { entries }) =~= before.update(i as int, (k, v)));
            }
            self.entries = entries;
            Some(slot.1)
        } else {
            proof {
                lemma_with_entry_ascending(before, k, v);
            }
            entries.insert(i, (key, value));
            proof {
                assert(dict_entries(Dict { entries }) =~= with_entry(before, k, v));
            }
            self.entries = entries;
            None
        }
    }
}


// ---------------------------------------------------------------------------
// Values.

impl Value {
    /// The byte string, if this is one.
    pub fn as_bytes(&self) -> (r: Option<&[u8]>)
        ensures
            match r {
                Some(b) => self@ == Tree::Bytes(b@),
                None => !(self@ is Bytes),
            },
    {
        match self {
            Value::Bytes(b) => Some(b.as_slice()),
            _ => None,
        }
    }

    /// The byte string as UTF-8, if this is one and it is valid UTF-8.
    pub fn as_str(&self) -> (r: Option<&str>)
        ensures
            match r {
                Some(s) => self@ == Tree::Bytes(s.spec_bytes()) && valid_utf8(s.spec_bytes()) && s@
                    == decode_utf8(s.spec_bytes()),
                None => !(self@ is Bytes && valid_utf8(self@->Bytes_0)),
            },
    {
        match self {
            Value::Bytes(b) => utf8_text(b.as_slice()),
            _ => None,
        }
    }

    /// The integer, if this is one.
    pub fn as_int(&self) -> (r: Option<i64>)
        ensures
            match r {
                Some(i) => self@ == Tree::Int(i as int),
                None => !(self@ is Int),
            },
    {
        match self {
            Value::Int(i) => Some(*i),
            _ => None,
        }
    }

    /// The list items, if this is a list.
    pub fn as_list(&self) -> (r: Option<&Vec<Value>>)
        ensures
            match r {
                Some(items) => self@ == Tree::List(trees(*items)),
                None => !(self@ is List),
            },
    {
        match self {
            Value::List(items) => Some(items),
            _ => None,
        }
    }

    /// The map, if this is a dictionary.
    pub fn as_dict(&self) -> (r: Option<&Dict>)
        ensures
            match r {
                Some(d) => self@ == Tree::Dict(d@),
                None => !(self@ is Dict),
            },
    {
        match self {
            Value::Dict(d) => Some(d),
            _ => None,
        }
    }

    /// Dictionary lookup, if this is a dictionary containing `key`.
    pub fn get(&self, key: &[u8]) -> (r: Option<&Value>)
        ensures
            match r {
                Some(v) => self@.get(key@) == Some(v@),
                None => self@.get(key@) is None,
            },
    {
        match self {
            Value::Dict(d) => d.get(key),
            _ => None,
        }
    }
}

// ---------------------------------------------------------------------------
// Encoding.

/// Canonically encode `value` (dictionary keys sorted, strict syntax).
pub fn encode(value: &Value) -> (r: Vec<u8>)
    ensures
        r@ == encoding(value@),
        value@.well_formed(),
{
    let mut out: Vec<u8> = Vec::new();
    encode_into(value, &mut out);
    proof {
        assert(out@ =~= encoding(value@));
    }
    out
}

/// Append the canonical encoding of `value` to `out`.
pub fn encode_into(value: &Value, out: &mut Vec<u8>)
    ensures
        final(out)@ == old(out)@ + encoding(value@),
        value@.well_formed(),
    decreases *value,
{
    let ghost before = out@;
    match value {
        Value::Bytes(b) => {
            put_bytes(b.as_slice(), out);
        },
        Value::Int(i) => {
            out.push('i' as u8);
            put_int(*i, out);
            out.push('e' as u8);
            proof {
                assert(out@ =~= before + encoding(value@));
            }
        },
        Value::List(items) => {
            out.push('l' as u8);
            let ghost start = out@;
            let mut i: usize = 0;
            proof {
                assert(out@ =~= start + items_encoding(trees(*items).take(0)));
            }
            while i < items.len()
                invariant
                    i <= items.len(),
                    *value == Value::List(*items),
                    out@ == start + items_encoding(trees(*items).take(i as int)),
                    forall|j: int|
                        0 <= j < i ==> (#[trigger] trees(*items)[j]).well_formed(),
                decreases items.len() - i,
            {
                proof {
                    assert(decreases_to!(*items => items@[i as int]));
                    assert(value->List_0 == *items);
                }
                encode_into(&items[i], out);
                proof {
                    let t = trees(*items);
                    assert(t.take(i as int + 1).drop_last() =~= t.take(i as int));
                    assert(out@ =~= start + items_encoding(t.take(i as int + 1)));
                }
                i = i + 1;
            }
            out.push('e' as u8);
            proof {
                let t = trees(*items);
                assert(t.take(t.len() as int) =~= t);
                assert(out@ =~= before + encoding(value@));
            }
        },
        Value::Dict(map) => {
            proof {
                use_type_invariant(map);
            }
            out.push('d' as u8);
            let ghost start = out@;
            let mut i: usize = 0;
            proof {
                assert(out@ =~= start + entries_encoding(map@.take(0)));
            }
            while i < map.entries.len()
                invariant
                    i <= map.entries.len(),
                    *value == Value::Dict(*map),
                    out@ == start + entries_encoding(map@.take(i as int)),
                    forall|j: int|
                        0 <= j < i ==> (#[trigger] map@[j]).0.len() <= usize::MAX
                            && map@[j].1.well_formed(),
                decreases map.entries.len() - i,
            {
                put_bytes(map.entries[i].0.as_slice(), out);
                proof {
                    assert(decreases_to!(map.entries => map.entries@[i as int]));
                    assert(value->Dict_0 == *map);
                }
                encode_into(&map.entries[i].1, out);
                proof {
                    let e = map@;
                    assert(e.take(i as int + 1).drop_last() =~= e.take(i as int));
                    assert(out@ =~= start + entries_encoding(e.take(i as int + 1)));
                }
                i = i + 1;
            }
            out.push('e' as u8);
            proof {
                let e = map@;
                assert(e.take(e.len() as int) =~= e);
                assert(out@ =~= before + encoding(value@));
            }
        },
    }
}

fn put_bytes(b: &[u8], out: &mut Vec<u8>)
    ensures
        final(out)@ == old(out)@ + bytes_encoding(b@),
        b@.len() <= usize::MAX,
{
    let ghost before = out@;
    let digits = decimal_digits(b.len() as u64);
    push_all(out, digits.as_slice());
    out.push(':' as u8);
    push_all(out, b);
    proof {
        assert(out@ =~= before + bytes_encoding(b@));
    }
}

fn put_int(i: i64, out: &mut Vec<u8>)
    ensures
        final(out)@ == old(out)@ + signed_decimal(i as int),
{
    let ghost before = out@;
    if i < 0 {
        out.push('-' as u8);
        let n: u64 = if i == i64::MIN {
            0x8000_0000_0000_0000
        } else {
            (-i) as u64
        };
        let digits = decimal_digits(n);
        push_all(out, digits.as_slice());
    } else {
        let digits = decimal_digits(i as u64);
        push_all(out, digits.as_slice());
    }
    proof {
        assert(out@ =~= before + signed_decimal(i as int));
    }
}

// ---------------------------------------------------------------------------
// Decoding.

/// A byte string that can be read ends after it starts, inside the input.
proof fn lemma_span_progress(s: Seq<u8>, pos: int)
    requires
        0 <= pos <= s.len(),
    ensures
        span_of_bytes_at(s, pos) matches Ok((from, to)) ==> pos < from <= to <= s.len(),
{
    lemma_digit_run_end(s, pos);
}

proof fn lemma_int_progress(s: Seq<u8>, pos: int)
    requires
        0 <= pos < s.len(),
    ensures
        int_at(s, pos) matches Ok((i, end)) ==> pos < end <= s.len(),
{
    let negative = pos + 1 < s.len() && s[pos + 1] == ('-' as u8);
    lemma_digit_run_end(s, if negative { pos + 2 } else { pos + 1 });
}

/// A value that can be read ends after it starts, inside the input.
pub proof fn lemma_value_progress(s: Seq<u8>, pos: int, depth: int)
    requires
        0 <= pos <= s.len(),
    ensures
        value_at(s, pos, depth) matches Ok((t, end)) ==> pos < end <= s.len(),
    decreases MAX_DEPTH - depth, s.len() - pos, 0int,
{
    if depth < MAX_DEPTH && pos < s.len() {
        lemma_span_progress(s, pos);
        lemma_int_progress(s, pos);
        if s[pos] == ('l' as u8) {
            lemma_items_progress(s, pos + 1, depth + 1, Seq::empty());
        } else if s[pos] == ('d' as u8) {
            lemma_entries_progress(s, pos + 1, depth + 1, Seq::empty());
        }
    }
}

proof fn lemma_items_progress(s: Seq<u8>, pos: int, depth: int, seen: Seq<Tree>)
    requires
        0 <= pos <= s.len(),
    ensures
        items_at(s, pos, depth, seen) matches Ok((t, end)) ==> pos < end <= s.len(),
    decreases MAX_DEPTH - depth, s.len() - pos, 1int,
{
    if pos < s.len() && s[pos] != ('e' as u8) {
        lemma_value_progress(s, pos, depth);
        if let Ok((t, end)) = value_at(s, pos, depth) {
            if pos < end <= s.len() {
                lemma_items_progress(s, end, depth, seen.push(t));
            }
        }
    }
}

proof fn lemma_entries_progress(s: Seq<u8>, pos: int, depth: int, seen: Seq<(Seq<u8>, Tree)>)
    requires
        0 <= pos <= s.len(),
    ensures
        entries_at(s, pos, depth, seen) matches Ok((t, end)) ==> pos < end <= s.len(),
    decreases MAX_DEPTH - depth, s.len() - pos, 1int,
{
    if pos < s.len() && s[pos] != ('e' as u8) && is_digit(s[pos]) {
        lemma_span_progress(s, pos);
        if let Ok((key, mid)) = bytes_at(s, pos) {
            if pos < mid <= s.len() {
                lemma_value_progress(s, mid, depth);
                if let Ok((t, end)) = value_at(s, mid, depth) {
                    if mid < end <= s.len() {
                        lemma_entries_progress(s, end, depth, with_entry(seen, key, t));
                    }
                }
            }
        }
    }
}

struct Decoder<'a> {
    input: &'a [u8],
    pos: usize,
}

impl<'a> Decoder<'a> {
    spec fn inv(self) -> bool {
        self.pos <= self.input@.len()
    }

    fn err(&self, kind: ErrorKind) -> (e: Error)
        ensures
            e == (Error { offset: self.pos, kind }),
    {
        Error { offset: self.pos, kind }
    }

    fn peek(&self) -> (r: Result<u8, Error>)
        ensures
            match r {
                Ok(b) => self.pos < self.input@.len() <= usize::MAX && b
                    == self.input@[self.pos as int],
                Err(e) => self.pos >= self.input@.len() && e == (Error {
                    offset: self.pos,
                    kind: ErrorKind::Truncated,
                }),
            },
    {
        if self.pos < self.input.len() {
            Ok(self.input[self.pos])
        } else {
            Err(self.err(ErrorKind::Truncated))
        }
    }

    fn value(&mut self, depth: u32) -> (r: Result<Value, Error>)
        requires
            old(self).inv(),
        ensures
            final(self).inv(),
            final(self).input == old(self).input,
            match r {
                Ok(v) => value_at(old(self).input@, old(self).pos as int, depth as int) == Ok::<
                    (Tree, int),
                    Error,
                >((v@, final(self).pos as int)) && final(self).pos > old(self).pos,
                Err(e) => value_at(old(self).input@, old(self).pos as int, depth as int) == Err::<
                    (Tree, int),
                    Error,
                >(e),
            },
        decreases MAX_DEPTH - depth,
    {
        if depth >= MAX_DEPTH {
            return Err(self.err(ErrorKind::TooDeep));
        }
        let ghost s = self.input@;
        let ghost pos0 = self.pos as int;
        let first: u8 = match self.peek() {
            Ok(b) => b,
            Err(e) => return Err(e),
        };
        if first == 'i' as u8 {
            match self.integer() {
                Ok(i) => Ok(Value::Int(i)),
                Err(e) => Err(e),
            }
        } else if 48 <= first && first <= 57 {
            match self.bytes() {
                Ok(b) => Ok(Value::Bytes(b)),
                Err(e) => Err(e),
            }
        } else if first == 'l' as u8 {
            self.pos = self.pos + 1;
            let mut items: Vec<Value> = Vec::new();
            proof {
                assert(trees(items) =~= Seq::empty());
            }
            loop
                invariant
                    self.inv(),
                    self.input@ == s,
                    self.input == old(self).input,
                    pos0 == old(self).pos,
                    0 <= pos0 < self.pos,
                    depth < MAX_DEPTH,
                    value_at(s, pos0, depth as int) == (match items_at(
                        s,
                        self.pos as int,
                        depth + 1,
                        trees(items),
                    ) {
                        Ok((items, end)) => Ok((Tree::List(items), end)),
                        Err(e) => Err(e),
                    }),
                    s == old(self).input@,
                decreases s.len() - self.pos,
            {
                let b: u8 = match self.peek() {
                    Ok(b) => b,
                    Err(e) => return Err(e),
                };
                if b == 'e' as u8 {
                    self.pos = self.pos + 1;
                    return Ok(Value::List(items));
                }
                let ghost seen = trees(items);
                let item = match self.value(depth + 1) {
                    Ok(v) => v,
                    Err(e) => return Err(e),
                };
                let ghost t = item@;
                items.push(item);
                proof {
                    assert(trees(items) =~= seen.push(t));
                }
            }
        } else if first == 'd' as u8 {
            self.pos = self.pos + 1;
            let mut map = Dict::new();
            loop
                invariant
                    self.inv(),
                    self.input@ == s,
                    self.input == old(self).input,
                    pos0 == old(self).pos,
                    0 <= pos0 < self.pos,
                    depth < MAX_DEPTH,
                    value_at(s, pos0, depth as int) == (match entries_at(
                        s,
                        self.pos as int,
                        depth + 1,
                        map@,
                    ) {
                        Ok((entries, end)) => Ok((Tree::Dict(entries), end)),
                        Err(e) => Err(e),
                    }),
                    s == old(self).input@,
                decreases s.len() - self.pos,
            {
                let key_offset: usize = self.pos;
                let b: u8 = match self.peek() {
                    Ok(b) => b,
                    Err(e) => return Err(e),
                };
                if b == 'e' as u8 {
                    self.pos = self.pos + 1;
                    return Ok(Value::Dict(map));
                }
                if !(48 <= b && b <= 57) {
                    return Err(Error { offset: key_offset, kind: ErrorKind::BadKey });
                }
                let key = match self.bytes() {
                    Ok(k) => k,
                    Err(e) => return Err(e),
                };
                let val = match self.value(depth + 1) {
                    Ok(v) => v,
                    Err(e) => return Err(e),
                };
                if map.insert(key, val).is_some() {
                    return Err(Error { offset: key_offset, kind: ErrorKind::BadKey });
                }
            }
        } else {
            Err(self.err(ErrorKind::BadValueStart))
        }
    }

    /// Parse `i<digits>e`. Accumulates negatively so `i64::MIN` round-trips
    /// while `i64::MAX + 1` is rejected.
    fn integer(&mut self) -> (r: Result<i64, Error>)
        requires
            old(self).pos < old(self).input@.len(),
        ensures
            final(self).inv(),
            final(self).input == old(self).input,
            match r {
                Ok(i) => int_at(old(self).input@, old(self).pos as int) == Ok::<(int, int), Error>(
                    (i as int, final(self).pos as int),
                ) && final(self).pos > old(self).pos,
                Err(e) => int_at(old(self).input@, old(self).pos as int) == Err::<
                    (int, int),
                    Error,
                >(e),
            },
    {
        let start: usize = self.pos;
        let ghost s = self.input@;
        let bad = Error { offset: start, kind: ErrorKind::BadInt };
        proof {
            assert(self.input.len() as int == s.len());
        }
        self.pos = self.pos + 1;
        let negative = match self.peek() {
            Ok(b) => b == '-' as u8,
            Err(e) => {
                return Err(e);
            },
        };
        if negative {
            self.pos = self.pos + 1;
        }
        let digits_start: usize = self.pos;
        let ghost from = digits_start as int;
        let ghost end = digit_run_end(s, from);
        proof {
            lemma_digit_run_end(s, from);
            assert(s.subrange(from, from) =~= Seq::empty());
        }
        let mut n: i64 = 0;
        while self.pos < self.input.len() && 48 <= self.input[self.pos] && self.input[self.pos] <= 57
            invariant
                s == self.input@,
                self.input == old(self).input,
                0 <= from <= self.pos <= end <= s.len(),
                end == digit_run_end(s, from),
                end == digit_run_end(s, self.pos as int),
                forall|i: int| from <= i < end ==> is_digit(#[trigger] s[i]),
                -n == digits_value(s.subrange(from, self.pos as int)),
                bad == (Error { offset: start, kind: ErrorKind::BadInt }),
                start == old(self).pos,
                negative == (start + 1 < s.len() && s[start + 1] == '-' as u8),
                from == (if negative { start + 2 } else { start + 1 }),
            decreases s.len() - self.pos,
        {
            proof {
                let whole = s.subrange(from, end);
                let here = self.pos as int;
                lemma_digit_run_end(s, here + 1);
                assert(whole.take(here + 1 - from) =~= s.subrange(from, here + 1));
                assert(s.subrange(from, here + 1).drop_last() =~= s.subrange(from, here));
                lemma_digits_monotone(whole, here + 1 - from);
            }
            let digit: i64 = (self.input[self.pos] - 48) as i64;
            match n.checked_mul(10) {
                None => {
                    return Err(bad);
                },
                Some(v) => match v.checked_sub(digit) {
                    None => {
                        return Err(bad);
                    },
                    Some(w) => {
                        n = w;
                    },
                },
            }
            self.pos = self.pos + 1;
        }
        proof {
            lemma_digit_run_end(s, self.pos as int);
            assert(end == self.pos);
        }
        let stop: u8 = match self.peek() {
            Ok(b) => b,
            Err(e) => return Err(e),
        };
        let ndigits: usize = self.pos - digits_start;
        if stop != 'e' as u8 || ndigits == 0 || (ndigits > 1 && self.input[digits_start] == '0' as u8)
            || (negative && n == 0) {
            return Err(bad);
        }
        self.pos = self.pos + 1;
        if negative {
            Ok(n)
        } else if n == i64::MIN {
            Err(bad)
        } else {
            Ok(-n)
        }
    }

    /// Parse `<digits>:<bytes>`.
    fn bytes(&mut self) -> (r: Result<Vec<u8>, Error>)
        requires
            old(self).inv(),
        ensures
            final(self).inv(),
            final(self).input == old(self).input,
            match r {
                Ok(b) => bytes_at(old(self).input@, old(self).pos as int) == Ok::<
                    (Seq<u8>, int),
                    Error,
                >((b@, final(self).pos as int)) && final(self).pos > old(self).pos,
                Err(e) => bytes_at(old(self).input@, old(self).pos as int) == Err::<
                    (Seq<u8>, int),
                    Error,
                >(e),
            },
    {
        match self.bytes_span() {
            Ok(range) => Ok(copy_range(self.input, range.start, range.end)),
            Err(e) => Err(e),
        }
    }

    /// The span of `<digits>:<bytes>`. The declared length is validated
    /// against the remaining input.
    fn bytes_span(&mut self) -> (r: Result<Range<usize>, Error>)
        requires
            old(self).inv(),
        ensures
            final(self).inv(),
            final(self).input == old(self).input,
            match r {
                Ok(range) => span_of_bytes_at(old(self).input@, old(self).pos as int) == Ok::<
                    (int, int),
                    Error,
                >((range.start as int, range.end as int)) && final(self).pos == range.end
                    && old(self).pos < range.start <= range.end,
                Err(e) => span_of_bytes_at(old(self).input@, old(self).pos as int) == Err::<
                    (int, int),
                    Error,
                >(e),
            },
    {
        let start: usize = self.pos;
        let ghost s = self.input@;
        let bad = Error { offset: start, kind: ErrorKind::BadLength };
        let ghost end = digit_run_end(s, start as int);
        proof {
            lemma_digit_run_end(s, start as int);
            assert(s.subrange(start as int, start as int) =~= Seq::empty());
        }
        let mut len: usize = 0;
        while self.pos < self.input.len() && 48 <= self.input[self.pos] && self.input[self.pos] <= 57
            invariant
                s == self.input@,
                self.input == old(self).input,
                0 <= start <= self.pos <= end <= s.len(),
                end == digit_run_end(s, start as int),
                end == digit_run_end(s, self.pos as int),
                forall|i: int| start <= i < end ==> is_digit(#[trigger] s[i]),
                len == digits_value(s.subrange(start as int, self.pos as int)),
                bad == (Error { offset: start, kind: ErrorKind::BadLength }),
                start == old(self).pos,
            decreases s.len() - self.pos,
        {
            proof {
                let whole = s.subrange(start as int, end);
                let here = self.pos as int;
                lemma_digit_run_end(s, here + 1);
                assert(whole.take(here + 1 - start) =~= s.subrange(start as int, here + 1));
                assert(s.subrange(start as int, here + 1).drop_last() =~= s.subrange(
                    start as int,
                    here,
                ));
                lemma_digits_monotone(whole, here + 1 - start);
            }
            let digit: usize = (self.input[self.pos] - 48) as usize;
            match len.checked_mul(10) {
                None => {
                    return Err(bad);
                },
                Some(v) => match v.checked_add(digit) {
                    None => {
                        return Err(bad);
                    },
                    Some(w) => {
                        len = w;
                    },
                },
            }
            self.pos = self.pos + 1;
        }
        proof {
            lemma_digit_run_end(s, self.pos as int);
            assert(end == self.pos);
        }
        let stop: u8 = match self.peek() {
            Ok(b) => b,
            Err(e) => return Err(e),
        };
        let ndigits: usize = self.pos - start;
        if stop != ':' as u8 || ndigits == 0 || (ndigits > 1 && self.input[start] == '0' as u8) {
            return Err(bad);
        }
        self.pos = self.pos + 1;
        if len > self.input.len() - self.pos {
            return Err(self.err(ErrorKind::Truncated));
        }
        let from: usize = self.pos;
        let to: usize = from + len;
        self.pos = to;
        Ok(from..to)
    }

    /// Skip one value without building it. Only called on input already
    /// validated by [`decode`].
    fn skip_value(&mut self, depth: u32) -> (r: Result<(), Error>)
        requires
            old(self).inv(),
            value_at(old(self).input@, old(self).pos as int, depth as int) is Ok,
        ensures
            final(self).inv(),
            final(self).input == old(self).input,
            r is Ok,
            value_at(old(self).input@, old(self).pos as int, depth as int)->Ok_0.1
                == final(self).pos,
        decreases MAX_DEPTH - depth,
    {
        let ghost s = self.input@;
        let ghost goal = value_at(s, self.pos as int, depth as int)->Ok_0.1;
        let first: u8 = match self.peek() {
            Ok(b) => b,
            Err(e) => return Err(e),
        };
        if first == 'i' as u8 {
            match self.integer() {
                Ok(_) => Ok(()),
                Err(e) => Err(e),
            }
        } else if 48 <= first && first <= 57 {
            match self.bytes_span() {
                Ok(_) => Ok(()),
                Err(e) => Err(e),
            }
        } else if first == 'l' as u8 {
            self.pos = self.pos + 1;
            let ghost mut seen: Seq<Tree> = Seq::empty();
            loop
                invariant
                    self.inv(),
                    self.input@ == s,
                    self.input == old(self).input,
                    depth < MAX_DEPTH,
                    items_at(s, self.pos as int, depth + 1, seen) is Ok,
                    items_at(s, self.pos as int, depth + 1, seen)->Ok_0.1 == goal,
                    goal == value_at(
                        old(self).input@,
                        old(self).pos as int,
                        depth as int,
                    )->Ok_0.1,
                decreases s.len() - self.pos,
            {
                let b: u8 = match self.peek() {
                    Ok(b) => b,
                    Err(e) => return Err(e),
                };
                if b == 'e' as u8 {
                    self.pos = self.pos + 1;
                    return Ok(());
                }
                proof {
                    lemma_value_progress(s, self.pos as int, depth + 1);
                    seen = seen.push(value_at(s, self.pos as int, depth + 1)->Ok_0.0);
                }
                match self.skip_value(depth + 1) {
                    Ok(()) => {},
                    Err(e) => return Err(e),
                }
            }
        } else {
            self.pos = self.pos + 1;
            let ghost mut seen: Seq<(Seq<u8>, Tree)> = Seq::empty();
            loop
                invariant
                    self.inv(),
                    self.input@ == s,
                    self.input == old(self).input,
                    depth < MAX_DEPTH,
                    entries_at(s, self.pos as int, depth + 1, seen) is Ok,
                    entries_at(s, self.pos as int, depth + 1, seen)->Ok_0.1 == goal,
                    goal == value_at(
                        old(self).input@,
                        old(self).pos as int,
                        depth as int,
                    )->Ok_0.1,
                decreases s.len() - self.pos,
            {
                let b: u8 = match self.peek() {
                    Ok(b) => b,
                    Err(e) => return Err(e),
                };
                if b == 'e' as u8 {
                    self.pos = self.pos + 1;
                    return Ok(());
                }
                let ghost key = bytes_at(s, self.pos as int)->Ok_0.0;
                match self.bytes_span() {
                    Ok(_) => {},
                    Err(e) => return Err(e),
                }
                proof {
                    lemma_value_progress(s, self.pos as int, depth + 1);
                    seen = with_entry(
                        seen,
                        key,
                        value_at(s, self.pos as int, depth + 1)->Ok_0.0,
                    );
                }
                match self.skip_value(depth + 1) {
                    Ok(()) => {},
                    Err(e) => return Err(e),
                }
            }
        }
    }
}

/// Decode one complete bencode value; the entire input must be consumed.
///
/// Any syntax violation, truncation, trailing data, duplicate dictionary key,
/// or nesting past [`MAX_DEPTH`] is reported with the offending offset.
pub fn decode(input: &[u8]) -> (r: Result<Value, Error>)
    ensures
        reads_as(r, decoded(input@)),
{
    let mut d = Decoder { input, pos: 0 };
    match d.value(0) {
        Ok(value) => if d.pos == input.len() {
            Ok(value)
        } else {
            Err(d.err(ErrorKind::TrailingData))
        },
        Err(e) => Err(e),
    }
}

/// Decode one bencode value from the start of `input`, returning it and the
/// number of bytes consumed. Unlike [`decode`], trailing bytes are allowed,
/// for framings where a bencoded header is followed by raw data.
pub fn decode_prefix(input: &[u8]) -> (r: Result<(Value, usize), Error>)
    ensures
        match r {
            Ok((v, n)) => value_at(input@, 0, 0) == Ok::<(Tree, int), Error>((v@, n as int)) && n
                <= input@.len(),
            Err(e) => value_at(input@, 0, 0) == Err::<(Tree, int), Error>(e),
        },
{
    let mut d = Decoder { input, pos: 0 };
    match d.value(0) {
        Ok(value) => Ok((value, d.pos)),
        Err(e) => Err(e),
    }
}


/// What a reported span says in terms of the model.
pub open spec fn same_span(r: Option<Range<usize>>, m: Option<(int, int)>) -> bool {
    match r {
        Some(range) => m == Some((range.start as int, range.end as int)),
        None => m is None,
    }
}

/// Byte range of the raw encoded value stored under `key` in the top-level
/// dictionary: the exact bytes an info-hash is computed over.
///
/// The whole input is validated first (as [`decode`] would), so the returned
/// range is trustworthy. Returns `Ok(None)` if the top-level value is not a
/// dictionary or has no such key.
pub fn raw_entry(input: &[u8], key: &[u8]) -> (r: Result<Option<Range<usize>>, Error>)
    ensures
        match r {
            Ok(span) => decoded(input@) is Ok && same_span(span, entry_span(input@, key@)),
            Err(e) => decoded(input@) == Err::<Tree, Error>(e),
        },
        r matches Ok(span) ==> match decoded(input@)->Ok_0.get(key@) {
            Some(t) => span matches Some(range) && decoded(
                input@.subrange(range.start as int, range.end as int),
            ) == Ok::<Tree, Error>(t),
            None => span is None,
        },
{
    match decode(input) {
        Ok(v) => {
            proof {
                law_raw_entry_spans_the_value(input@, key@, v@);
            }
            Ok(find_entry(input, key))
        },
        Err(e) => Err(e),
    }
}

/// Decode one complete value together with the byte range of the raw encoded
/// value stored under `key` in its top-level dictionary.
pub fn decode_with_entry(input: &[u8], key: &[u8]) -> (r: Result<
    (Value, Option<Range<usize>>),
    Error,
>)
    ensures
        match r {
            Ok((v, span)) => decoded(input@) == Ok::<Tree, Error>(v@) && same_span(
                span,
                entry_span(input@, key@),
            ),
            Err(e) => decoded(input@) == Err::<Tree, Error>(e),
        },
{
    match decode(input) {
        Ok(v) => {
            let span = find_entry(input, key);
            Ok((v, span))
        },
        Err(e) => Err(e),
    }
}

fn find_entry(input: &[u8], key: &[u8]) -> (r: Option<Range<usize>>)
    requires
        decoded(input@) is Ok,
    ensures
        same_span(r, entry_span(input@, key@)),
{
    let mut d = Decoder { input, pos: 0 };
    let ghost s = input@;
    let first: u8 = match d.peek() {
        Ok(b) => b,
        Err(_) => return None,
    };
    if first != 'd' as u8 {
        return None;
    }
    d.pos = d.pos + 1;
    let ghost mut seen: Seq<(Seq<u8>, Tree)> = Seq::empty();
    loop
        invariant
            d.inv(),
            d.input@ == s,
            s == input@,
            entries_at(s, d.pos as int, 1, seen) is Ok,
            entry_span(s, key@) == entry_span_at(s, d.pos as int, key@),
        decreases s.len() - d.pos,
    {
        let b: u8 = match d.peek() {
            Ok(b) => b,
            Err(_) => return None,
        };
        if b == 'e' as u8 {
            return None;
        }
        let ghost k0 = bytes_at(s, d.pos as int)->Ok_0.0;
        let k = match d.bytes() {
            Ok(k) => k,
            Err(_) => return None,
        };
        let start: usize = d.pos;
        proof {
            lemma_value_progress(s, d.pos as int, 1);
            seen = with_entry(seen, k0, value_at(s, d.pos as int, 1)->Ok_0.0);
        }
        match d.skip_value(1) {
            Ok(()) => {},
            Err(_) => return None,
        }
        if bytes_eq(k.as_slice(), key) {
            return Some(start..d.pos);
        }
    }
}

/// The text of an error kind.
pub open spec fn kind_text(kind: ErrorKind) -> Seq<char> {
    match kind {
        ErrorKind::Truncated => "input truncated mid-value"@,
        ErrorKind::TrailingData => "trailing bytes after the value"@,
        ErrorKind::BadInt => "malformed integer"@,
        ErrorKind::BadLength => "malformed string length"@,
        ErrorKind::BadKey => "duplicate or non-string dictionary key"@,
        ErrorKind::TooDeep => "nesting deeper than the decoder allows"@,
        ErrorKind::BadValueStart => "byte cannot start a value"@,
    }
}

/// The text of an error.
pub open spec fn error_text(e: Error) -> Seq<char> {
    "bencode: "@ + kind_text(e.kind) + " at offset "@ + decimal_text(e.offset as nat)
}

impl Error {
    /// What went wrong, and where, in words.
    pub fn message(&self) -> (r: String)
        ensures
            r@ == error_text(*self),
    {
        let what = match self.kind {
            ErrorKind::Truncated => "input truncated mid-value",
            ErrorKind::TrailingData => "trailing bytes after the value",
            ErrorKind::BadInt => "malformed integer",
            ErrorKind::BadLength => "malformed string length",
            ErrorKind::BadKey => "duplicate or non-string dictionary key",
            ErrorKind::TooDeep => "nesting deeper than the decoder allows",
            ErrorKind::BadValueStart => "byte cannot start a value",
        };
        let mut out = "bencode: ".to_owned();
        out.append(what);
        out.append(" at offset ");
        push_decimal(&mut out, self.offset as u64);
        out
    }
}

// ---------------------------------------------------------------------------
// What encoding and decoding owe each other.

/// A byte string written at a position is the byte string read there.
pub proof fn lemma_bytes_back(s: Seq<u8>, pos: int, b: Seq<u8>)
    requires
        0 <= pos,
        pos + bytes_encoding(b).len() <= s.len(),
        s.subrange(pos, pos + bytes_encoding(b).len()) == bytes_encoding(b),
        b.len() <= usize::MAX,
    ensures
        bytes_encoding(b).len() >= 2,
        is_digit(s[pos]),
        bytes_at(s, pos) == Ok::<(Seq<u8>, int), Error>((b, pos + bytes_encoding(b).len())),
{
    let enc = bytes_encoding(b);
    let d = decimal(b.len());
    lemma_decimal(b.len());
    assert forall|i: int| 0 <= i < enc.len() implies s[pos + i] == #[trigger] enc[i] by {
        assert(s.subrange(pos, pos + enc.len())[i] == s[pos + i]);
    }
    let end = pos + d.len();
    assert forall|i: int| pos <= i < end implies is_digit(#[trigger] s[i]) by {
        assert(s[pos + (i - pos)] == enc[i - pos]);
        assert(enc[i - pos] == d[i - pos]);
    }
    assert(s[pos + d.len()] == enc[d.len() as int]);
    assert(s[pos] == enc[0] && enc[0] == d[0]) by {
        assert(s[pos + 0] == enc[0]);
    }
    lemma_digit_run(s, pos, end);
    assert(s.subrange(pos, end) =~= d) by {
        assert forall|i: int| 0 <= i < d.len() implies s.subrange(pos, end)[i] == d[i] by {
            assert(s[pos + i] == enc[i]);
        }
    }
    assert(s.subrange(end + 1, end + 1 + b.len()) =~= b) by {
        assert forall|i: int| 0 <= i < b.len() implies s.subrange(end + 1, end + 1 + b.len())[i]
            == b[i] by {
            assert(s[pos + (d.len() + 1 + i)] == enc[d.len() + 1 + i]);
        }
    }
}

proof fn lemma_int_round(s: Seq<u8>, pos: int, n: int)
    requires
        0 <= pos,
        pos + encoding(Tree::Int(n)).len() <= s.len(),
        s.subrange(pos, pos + encoding(Tree::Int(n)).len()) == encoding(Tree::Int(n)),
        i64::MIN <= n <= i64::MAX,
    ensures
        encoding(Tree::Int(n)).len() >= 2,
        s[pos] == ('i' as u8),
        int_at(s, pos) == Ok::<(int, int), Error>((n, pos + encoding(Tree::Int(n)).len())),
{
    let enc = encoding(Tree::Int(n));
    let m = if n < 0 { (-n) as nat } else { n as nat };
    let d = decimal(m);
    lemma_decimal(m);
    assert forall|i: int| 0 <= i < enc.len() implies s[pos + i] == #[trigger] enc[i] by {
        assert(s.subrange(pos, pos + enc.len())[i] == s[pos + i]);
    }
    let skip: int = if n < 0 { 2 } else { 1 };
    let from = pos + skip;
    let end = from + d.len();
    assert(s[pos + 0] == enc[0]);
    assert(s[pos + 1] == enc[1]);
    assert(s[pos + skip] == enc[skip] && enc[skip] == d[0]);
    assert forall|i: int| from <= i < end implies is_digit(#[trigger] s[i]) by {
        assert(s[pos + (i - pos)] == enc[i - pos]);
        assert(enc[i - pos] == d[i - from]);
    }
    assert(s[pos + (skip + d.len())] == enc[skip + d.len()]);
    lemma_digit_run(s, from, end);
    assert(s.subrange(from, end) =~= d) by {
        assert forall|i: int| 0 <= i < d.len() implies s.subrange(from, end)[i] == d[i] by {
            assert(s[pos + (skip + i)] == enc[skip + i]);
        }
    }
}

proof fn lemma_first_byte(t: Tree)
    requires
        t.well_formed(),
    ensures
        encoding(t).len() >= 2,
        encoding(t)[0] != ('e' as u8),
{
    match t {
        Tree::Bytes(b) => {
            lemma_decimal(b.len());
        },
        Tree::Int(i) => {
            lemma_decimal((if i < 0 { -i } else { i }) as nat);
        },
        _ => {},
    }
}

proof fn lemma_items_prefix(items: Seq<Tree>, k: int)
    requires
        0 <= k <= items.len(),
    ensures
        items_encoding(items.take(k)).len() <= items_encoding(items).len(),
        items_encoding(items).take(items_encoding(items.take(k)).len() as int) == items_encoding(
            items.take(k),
        ),
    decreases items.len() - k,
{
    if k < items.len() {
        lemma_items_prefix(items, k + 1);
        assert(items.take(k + 1).drop_last() =~= items.take(k));
        let a = items_encoding(items.take(k));
        let b = items_encoding(items.take(k + 1));
        let c = items_encoding(items);
        assert(b.take(a.len() as int) =~= a);
        assert(c.take(a.len() as int) =~= c.take(b.len() as int).take(a.len() as int));
    } else {
        assert(items.take(k) =~= items);
        assert(items_encoding(items).take(items_encoding(items).len() as int) =~= items_encoding(
            items,
        ));
    }
}

proof fn lemma_entries_prefix(e: Seq<(Seq<u8>, Tree)>, k: int)
    requires
        0 <= k <= e.len(),
    ensures
        entries_encoding(e.take(k)).len() <= entries_encoding(e).len(),
        entries_encoding(e).take(entries_encoding(e.take(k)).len() as int) == entries_encoding(
            e.take(k),
        ),
    decreases e.len() - k,
{
    if k < e.len() {
        lemma_entries_prefix(e, k + 1);
        assert(e.take(k + 1).drop_last() =~= e.take(k));
        let a = entries_encoding(e.take(k));
        let b = entries_encoding(e.take(k + 1));
        let c = entries_encoding(e);
        assert(b.take(a.len() as int) =~= a);
        assert(c.take(a.len() as int) =~= c.take(b.len() as int).take(a.len() as int));
    } else {
        assert(e.take(k) =~= e);
        assert(entries_encoding(e).take(entries_encoding(e).len() as int) =~= entries_encoding(e));
    }
}

/// A value written at a position is the value read there.
pub proof fn lemma_value_round(s: Seq<u8>, pos: int, depth: int, t: Tree)
    requires
        0 <= pos,
        pos + encoding(t).len() <= s.len(),
        s.subrange(pos, pos + encoding(t).len()) == encoding(t),
        t.well_formed(),
        t.fits(MAX_DEPTH - depth),
    ensures
        value_at(s, pos, depth) == Ok::<(Tree, int), Error>((t, pos + encoding(t).len())),
    decreases t, 0int,
{
    lemma_first_byte(t);
    let enc = encoding(t);
    assert(s.subrange(pos, pos + enc.len())[0] == s[pos]);
    match t {
        Tree::Bytes(b) => {
            lemma_bytes_back(s, pos, b);
        },
        Tree::Int(n) => {
            lemma_int_round(s, pos, n);
        },
        Tree::List(items) => {
            let body = items_encoding(items);
            assert(s.subrange(pos + 1, pos + 1 + body.len()) =~= body) by {
                assert forall|i: int| 0 <= i < body.len() implies s.subrange(
                    pos + 1,
                    pos + 1 + body.len(),
                )[i] == body[i] by {
                    assert(s.subrange(pos, pos + enc.len())[i + 1] == s[pos + 1 + i]);
                    assert(enc[i + 1] == body[i]);
                }
            }
            assert(s.subrange(pos, pos + enc.len())[enc.len() - 1] == s[pos + enc.len() - 1]);
            lemma_items_round(s, pos + 1, depth + 1, items, 0);
            assert(items.take(0) =~= Seq::empty());
        },
        Tree::Dict(e) => {
            let body = entries_encoding(e);
            assert(s.subrange(pos + 1, pos + 1 + body.len()) =~= body) by {
                assert forall|i: int| 0 <= i < body.len() implies s.subrange(
                    pos + 1,
                    pos + 1 + body.len(),
                )[i] == body[i] by {
                    assert(s.subrange(pos, pos + enc.len())[i + 1] == s[pos + 1 + i]);
                    assert(enc[i + 1] == body[i]);
                }
            }
            assert(s.subrange(pos, pos + enc.len())[enc.len() - 1] == s[pos + enc.len() - 1]);
            lemma_entries_round(s, pos + 1, depth + 1, e, 0);
            assert(e.take(0) =~= Seq::empty());
        },
    }
}

proof fn lemma_items_round(s: Seq<u8>, start: int, depth: int, items: Seq<Tree>, k: int)
    requires
        0 <= start,
        start + items_encoding(items).len() < s.len(),
        s.subrange(start, start + items_encoding(items).len()) == items_encoding(items),
        s[start + items_encoding(items).len()] == ('e' as u8),
        forall|i: int| 0 <= i < items.len() ==> (#[trigger] items[i]).well_formed(),
        forall|i: int| 0 <= i < items.len() ==> (#[trigger] items[i]).fits(MAX_DEPTH - depth),
        0 <= k <= items.len(),
    ensures
        items_at(s, start + items_encoding(items.take(k)).len(), depth, items.take(k)) == Ok::<
            (Seq<Tree>, int),
            Error,
        >((items, start + items_encoding(items).len() + 1)),
    decreases items, items.len() - k,
{
    let body = items_encoding(items);
    let here = items_encoding(items.take(k));
    let p = start + here.len();
    if k < items.len() {
        let t = items[k];
        let next = items_encoding(items.take(k + 1));
        assert(items.take(k + 1).drop_last() =~= items.take(k));
        assert(next == here + encoding(t));
        lemma_items_prefix(items, k + 1);
        assert(s.subrange(p, p + encoding(t).len()) =~= encoding(t)) by {
            assert forall|i: int| 0 <= i < encoding(t).len() implies s.subrange(
                p,
                p + encoding(t).len(),
            )[i] == encoding(t)[i] by {
                assert(s.subrange(start, start + body.len())[here.len() + i] == s[p + i]);
                assert(body.take(next.len() as int)[here.len() + i] == body[here.len() + i]);
                assert(next[here.len() + i] == encoding(t)[i]);
            }
        }
        lemma_first_byte(t);
        assert(s.subrange(p, p + encoding(t).len())[0] == s[p]);
        lemma_value_round(s, p, depth, t);
        assert(items.take(k).push(t) =~= items.take(k + 1));
        lemma_items_round(s, start, depth, items, k + 1);
    } else {
        assert(items.take(k) =~= items);
    }
}

proof fn lemma_entries_round(
    s: Seq<u8>,
    start: int,
    depth: int,
    e: Seq<(Seq<u8>, Tree)>,
    k: int,
)
    requires
        0 <= start,
        start + entries_encoding(e).len() < s.len(),
        s.subrange(start, start + entries_encoding(e).len()) == entries_encoding(e),
        s[start + entries_encoding(e).len()] == ('e' as u8),
        ascending(e),
        forall|i: int|
            0 <= i < e.len() ==> (#[trigger] e[i]).0.len() <= usize::MAX && e[i].1.well_formed(),
        forall|i: int| 0 <= i < e.len() ==> (#[trigger] e[i]).1.fits(MAX_DEPTH - depth),
        0 <= k <= e.len(),
    ensures
        entries_at(s, start + entries_encoding(e.take(k)).len(), depth, e.take(k)) == Ok::<
            (Seq<(Seq<u8>, Tree)>, int),
            Error,
        >((e, start + entries_encoding(e).len() + 1)),
    decreases e, e.len() - k,
{
    let body = entries_encoding(e);
    let here = entries_encoding(e.take(k));
    let p = start + here.len();
    if k < e.len() {
        let key = e[k].0;
        let t = e[k].1;
        let kenc = bytes_encoding(key);
        let next = entries_encoding(e.take(k + 1));
        assert(e.take(k + 1).drop_last() =~= e.take(k));
        assert(next == here + kenc + encoding(t));
        lemma_entries_prefix(e, k + 1);
        let mid = p + kenc.len();
        assert(s.subrange(p, mid) =~= kenc) by {
            assert forall|i: int| 0 <= i < kenc.len() implies s.subrange(p, mid)[i] == kenc[i] by {
                assert(s.subrange(start, start + body.len())[here.len() + i] == s[p + i]);
                assert(body.take(next.len() as int)[here.len() + i] == body[here.len() + i]);
                assert(next[here.len() + i] == kenc[i]);
            }
        }
        let tenc = encoding(t);
        assert(s.subrange(mid, mid + tenc.len()) =~= tenc) by {
            assert forall|i: int| 0 <= i < tenc.len() implies s.subrange(mid, mid + tenc.len())[i]
                == tenc[i] by {
                let off = here.len() + kenc.len() + i;
                assert(s.subrange(start, start + body.len())[off] == s[mid + i]);
                assert(body.take(next.len() as int)[off] == body[off]);
                assert(next[off] == tenc[i]);
            }
        }
        lemma_bytes_back(s, p, key);
        assert(decreases_to!(e => e[k]));
        lemma_first_byte(t);
        lemma_value_round(s, mid, depth, t);
        let seen = e.take(k);
        assert forall|j: int| 0 <= j < seen.len() implies lex_less((#[trigger] seen[j]).0, key) by {
            assert(lex_less(e[j].0, e[k].0));
        }
        assert(!has_key(seen, key)) by {
            lemma_lex_irreflexive(key);
        }
        lemma_rank(seen, key, 0);
        lemma_rank(seen, key, k);
        assert(rank(seen, key, 0) == k) by {
            let r = rank(seen, key, 0);
            if r < k {
                assert(lex_less(seen[r].0, key));
            }
        }
        assert(with_entry(seen, key, t) =~= e.take(k + 1));
        lemma_entries_round(s, start, depth, e, k + 1);
    } else {
        assert(e.take(k) =~= e);
    }
}

/// Decoding the encoding of a value gives the value back: every value nested
/// no deeper than the decoder allows survives the round trip.
pub proof fn law_decode_inverts_encode(t: Tree)
    requires
        t.well_formed(),
        t.fits(MAX_DEPTH as int),
    ensures
        decoded(encoding(t)) == Ok::<Tree, Error>(t),
{
    assert(encoding(t).subrange(0, encoding(t).len() as int) =~= encoding(t));
    lemma_value_round(encoding(t), 0, 0, t);
}

/// Two different values never share an encoding.
pub proof fn law_encoding_is_injective(a: Tree, b: Tree)
    requires
        a.well_formed(),
        b.well_formed(),
        a.fits(MAX_DEPTH as int),
        b.fits(MAX_DEPTH as int),
        encoding(a) == encoding(b),
    ensures
        a == b,
{
    law_decode_inverts_encode(a);
    law_decode_inverts_encode(b);
}

proof fn lemma_value_well_formed(s: Seq<u8>, pos: int, depth: int)
    requires
        0 <= pos <= s.len() <= usize::MAX,
    ensures
        value_at(s, pos, depth) matches Ok((t, end)) ==> t.well_formed() && t.fits(
            MAX_DEPTH - depth,
        ),
    decreases MAX_DEPTH - depth, s.len() - pos, 0int,
{
    if depth < MAX_DEPTH && pos < s.len() {
        lemma_span_progress(s, pos);
        lemma_int_progress(s, pos);
        if s[pos] == ('l' as u8) {
            lemma_items_well_formed(s, pos + 1, depth + 1, Seq::empty());
        } else if s[pos] == ('d' as u8) {
            lemma_entries_well_formed(s, pos + 1, depth + 1, Seq::empty());
        }
    }
}

proof fn lemma_items_well_formed(s: Seq<u8>, pos: int, depth: int, seen: Seq<Tree>)
    requires
        0 <= pos <= s.len() <= usize::MAX,
        forall|i: int| 0 <= i < seen.len() ==> (#[trigger] seen[i]).well_formed(),
        forall|i: int| 0 <= i < seen.len() ==> (#[trigger] seen[i]).fits(MAX_DEPTH - depth),
    ensures
        items_at(s, pos, depth, seen) matches Ok((items, end)) ==> {
            &&& forall|i: int| 0 <= i < items.len() ==> (#[trigger] items[i]).well_formed()
            &&& forall|i: int| 0 <= i < items.len() ==> (#[trigger] items[i]).fits(MAX_DEPTH - depth)
        },
    decreases MAX_DEPTH - depth, s.len() - pos, 1int,
{
    if pos < s.len() && s[pos] != ('e' as u8) {
        lemma_value_progress(s, pos, depth);
        lemma_value_well_formed(s, pos, depth);
        if let Ok((t, end)) = value_at(s, pos, depth) {
            if pos < end <= s.len() {
                lemma_items_well_formed(s, end, depth, seen.push(t));
            }
        }
    }
}

proof fn lemma_entries_well_formed(s: Seq<u8>, pos: int, depth: int, seen: Seq<(Seq<u8>, Tree)>)
    requires
        0 <= pos <= s.len() <= usize::MAX,
        ascending(seen),
        forall|i: int|
            0 <= i < seen.len() ==> (#[trigger] seen[i]).0.len() <= usize::MAX
                && seen[i].1.well_formed() && seen[i].1.fits(MAX_DEPTH - depth),
    ensures
        entries_at(s, pos, depth, seen) matches Ok((e, end)) ==> {
            &&& ascending(e)
            &&& forall|i: int|
                0 <= i < e.len() ==> (#[trigger] e[i]).0.len() <= usize::MAX
                    && e[i].1.well_formed() && e[i].1.fits(MAX_DEPTH - depth)
        },
    decreases MAX_DEPTH - depth, s.len() - pos, 1int,
{
    if pos < s.len() && s[pos] != ('e' as u8) && is_digit(s[pos]) {
        lemma_span_progress(s, pos);
        if let Ok((key, mid)) = bytes_at(s, pos) {
            if pos < mid <= s.len() {
                lemma_value_progress(s, mid, depth);
                lemma_value_well_formed(s, mid, depth);
                if let Ok((t, end)) = value_at(s, mid, depth) {
                    if mid < end <= s.len() && !has_key(seen, key) {
                        lemma_with_entry_ascending(seen, key, t);
                        lemma_rank_finds(seen, key);
                        let more = with_entry(seen, key, t);
                        assert forall|i: int| 0 <= i < more.len() implies (#[trigger] more[i]).0.len()
                            <= usize::MAX && more[i].1.well_formed() && more[i].1.fits(
                            MAX_DEPTH - depth,
                        ) by {
                            let r = rank(seen, key, 0);
                            if i < r {
                                assert(more[i] == seen[i]);
                            } else if i > r {
                                assert(more[i] == seen[i - 1]);
                            }
                        }
                        lemma_entries_well_formed(s, end, depth, more);
                    }
                }
            }
        }
    }
}

/// Whatever decodes is well formed: integers in range, keys ascending and
/// distinct at every level, nesting within [`MAX_DEPTH`].
pub proof fn law_decoded_is_well_formed(s: Seq<u8>, t: Tree)
    requires
        s.len() <= usize::MAX,
        decoded(s) == Ok::<Tree, Error>(t),
    ensures
        t.well_formed(),
        t.fits(MAX_DEPTH as int),
{
    lemma_value_well_formed(s, 0, 0);
}

/// Whatever decodes encodes to its canonical form, which decodes to the same
/// value.
pub proof fn law_reencoding_is_canonical(s: Seq<u8>, t: Tree)
    requires
        s.len() <= usize::MAX,
        decoded(s) == Ok::<Tree, Error>(t),
    ensures
        decoded(encoding(t)) == Ok::<Tree, Error>(t),
{
    law_decoded_is_well_formed(s, t);
    law_decode_inverts_encode(t);
}

proof fn lemma_lookup_with_entry(e: Seq<(Seq<u8>, Tree)>, key: Seq<u8>, t: Tree, k: Seq<u8>)
    requires
        ascending(e),
        !has_key(e, key),
    ensures
        lookup(with_entry(e, key, t), k) == (if k == key { Some(t) } else { lookup(e, k) }),
{
    let more = with_entry(e, key, t);
    let r = rank(e, key, 0);
    lemma_with_entry_ascending(e, key, t);
    lemma_rank_finds(e, key);
    lemma_lookup_none(e, k);
    lemma_lookup_none(more, k);
    if k == key {
        assert(more[r] == (key, t));
        lemma_lookup_at(more, r);
    } else if has_key(e, k) {
        let i = choose|i: int| 0 <= i < e.len() && (#[trigger] e[i]).0 == k;
        lemma_lookup_at(e, i);
        if i < r {
            assert(more[i] == e[i]);
            lemma_lookup_at(more, i);
        } else {
            assert(more[i + 1] == e[i]);
            lemma_lookup_at(more, i + 1);
        }
    } else {
        if has_key(more, k) {
            let i = choose|i: int| 0 <= i < more.len() && (#[trigger] more[i]).0 == k;
            if i < r {
                assert(more[i] == e[i]);
            } else if i > r {
                assert(more[i] == e[i - 1]);
            }
            assert(false);
        }
    }
}

/// Once a key is among the entries read, later entries leave it alone.
proof fn lemma_entries_keep(
    s: Seq<u8>,
    pos: int,
    depth: int,
    seen: Seq<(Seq<u8>, Tree)>,
    key: Seq<u8>,
)
    requires
        0 <= pos <= s.len(),
        ascending(seen),
        entries_at(s, pos, depth, seen) is Ok,
        lookup(seen, key) is Some,
    ensures
        lookup(entries_at(s, pos, depth, seen)->Ok_0.0, key) == lookup(seen, key),
    decreases s.len() - pos,
{
    if s[pos] != ('e' as u8) {
        lemma_span_progress(s, pos);
        let k = bytes_at(s, pos)->Ok_0.0;
        let mid = bytes_at(s, pos)->Ok_0.1;
        lemma_value_progress(s, mid, depth);
        let t = value_at(s, mid, depth)->Ok_0.0;
        let end = value_at(s, mid, depth)->Ok_0.1;
        lemma_with_entry_ascending(seen, k, t);
        lemma_lookup_with_entry(seen, k, t, key);
        lemma_lookup_none(seen, key);
        lemma_entries_keep(s, end, depth, with_entry(seen, k, t), key);
    }
}

proof fn lemma_entry_span(s: Seq<u8>, pos: int, seen: Seq<(Seq<u8>, Tree)>, key: Seq<u8>) -> (p: int)
    requires
        0 <= pos <= s.len(),
        ascending(seen),
        !has_key(seen, key),
        entries_at(s, pos, 1, seen) is Ok,
    ensures
        entry_span_at(s, pos, key) matches Some((from, _)) ==> entry_starts_at(s, pos, p)
            && bytes_at(s, p) == Ok::<(Seq<u8>, int), Error>((key, from)),
        match entry_span_at(s, pos, key) {
            Some((from, to)) => pos < from < to <= s.len() && lookup(
                entries_at(s, pos, 1, seen)->Ok_0.0,
                key,
            ) is Some && value_at(s, from, 1) == Ok::<(Tree, int), Error>(
                (lookup(entries_at(s, pos, 1, seen)->Ok_0.0, key)->Some_0, to),
            ),
            None => lookup(entries_at(s, pos, 1, seen)->Ok_0.0, key) is None,
        },
    decreases s.len() - pos,
{
    lemma_lookup_none(seen, key);
    if s[pos] != ('e' as u8) {
        lemma_span_progress(s, pos);
        let k = bytes_at(s, pos)->Ok_0.0;
        let mid = bytes_at(s, pos)->Ok_0.1;
        lemma_value_progress(s, mid, 1);
        let t = value_at(s, mid, 1)->Ok_0.0;
        let end = value_at(s, mid, 1)->Ok_0.1;
        let more = with_entry(seen, k, t);
        lemma_with_entry_ascending(seen, k, t);
        lemma_lookup_with_entry(seen, k, t, key);
        lemma_lookup_none(more, key);
        if k == key {
            lemma_entries_keep(s, end, 1, more, key);
            pos
        } else {
            lemma_entry_span(s, end, more, key)
        }
    } else {
        pos
    }
}

/// The span [`raw_entry`] reports is where the value that [`decode`] finds
/// under the key is encoded, and there is one exactly when there is a value.
/// It begins right after the key, in an entry of the top-level dictionary, and
/// its bytes decode to that value on their own.
pub proof fn law_raw_entry_spans_the_value(s: Seq<u8>, key: Seq<u8>, t: Tree)
    requires
        decoded(s) == Ok::<Tree, Error>(t),
    ensures
        entry_span(s, key) is Some <==> t.get(key) is Some,
        entry_span(s, key) matches Some((from, to)) ==> 0 < from < to <= s.len() && value_at(
            s,
            from,
            1,
        ) == Ok::<(Tree, int), Error>((t.get(key)->Some_0, to)),
        entry_span(s, key) matches Some((from, to)) ==> decoded(s.subrange(from, to)) == Ok::<
            Tree,
            Error,
        >(t.get(key)->Some_0),
        entry_span(s, key) matches Some((from, _)) ==> exists|p: int|
            #[trigger] entry_starts_at(s, 1, p) && bytes_at(s, p) == Ok::<(Seq<u8>, int), Error>(
                (key, from),
            ),
{
    if s[0] == ('d' as u8) {
        let p = lemma_entry_span(s, 1, Seq::empty(), key);
        if let Some((from, to)) = entry_span(s, key) {
            assert(entry_starts_at(s, 1, p));
            let part = s.subrange(from, to);
            assert forall|i: int| 0 <= i < part.len() implies s[from + i] == #[trigger] part[i] by {}
            lemma_value_extracted(part, s, from, 0, 0, 1);
        }
    }
}


/// Whether the entries make a well-formed dictionary with `room` levels left.
pub open spec fn sound_entries(e: Seq<(Seq<u8>, Tree)>, room: int) -> bool {
    ascending(e) && forall|i: int|
        0 <= i < e.len() ==> (#[trigger] e[i]).0.len() <= usize::MAX && e[i].1.well_formed()
            && e[i].1.fits(room)
}

/// Storing under one key is seen under that key and no other, and keeps a
/// dictionary sound.
pub proof fn law_stored_is_found(
    e: Seq<(Seq<u8>, Tree)>,
    key: Seq<u8>,
    t: Tree,
    other: Seq<u8>,
)
    requires
        ascending(e),
    ensures
        ascending(stored(e, key, t)),
        lookup(stored(e, key, t), other) == (if other == key {
            Some(t)
        } else {
            lookup(e, other)
        }),
{
    lemma_rank_finds(e, key);
    if has_key(e, key) {
        let r = rank(e, key, 0);
        let m = e.update(r, (key, t));
        assert(ascending(m));
        lemma_lookup_none(e, other);
        lemma_lookup_none(m, other);
        if other == key {
            lemma_lookup_at(m, r);
            assert(m[r].0 == key);
        } else if has_key(e, other) {
            let i = choose|i: int| 0 <= i < e.len() && (#[trigger] e[i]).0 == other;
            assert(m[i] == e[i]);
            lemma_lookup_at(e, i);
            lemma_lookup_at(m, i);
        } else {
            if has_key(m, other) {
                let i = choose|i: int| 0 <= i < m.len() && (#[trigger] m[i]).0 == other;
                assert(e[i].0 == other);
            }
        }
    } else {
        lemma_with_entry_ascending(e, key, t);
        lemma_lookup_with_entry(e, key, t, other);
    }
}

/// Storing under a key above all others puts the entry last.
pub proof fn lemma_stored_last(e: Seq<(Seq<u8>, Tree)>, key: Seq<u8>, t: Tree)
    requires
        forall|i: int| 0 <= i < e.len() ==> lex_less((#[trigger] e[i]).0, key),
    ensures
        stored(e, key, t) == e.push((key, t)),
{
    lemma_lex_irreflexive(key);
    lemma_rank(e, key, 0);
    let r = rank(e, key, 0);
    assert(r == e.len()) by {
        if r < e.len() {
            assert(lex_less(e[r].0, key));
        }
    }
    assert(!has_key(e, key));
    assert(with_entry(e, key, t) =~= e.push((key, t)));
}

/// Storing a sound value keeps a dictionary sound.
pub proof fn lemma_stored_sound(e: Seq<(Seq<u8>, Tree)>, key: Seq<u8>, t: Tree, room: int)
    requires
        sound_entries(e, room),
        key.len() <= usize::MAX,
        t.well_formed(),
        t.fits(room),
    ensures
        sound_entries(stored(e, key, t), room),
{
    law_stored_is_found(e, key, t, key);
    lemma_rank_finds(e, key);
    let m = stored(e, key, t);
    let r = rank(e, key, 0);
    assert forall|i: int| 0 <= i < m.len() implies (#[trigger] m[i]).0.len() <= usize::MAX
        && m[i].1.well_formed() && m[i].1.fits(room) by {
        if i < r {
            assert(m[i] == e[i]);
        } else if i > r {
            if has_key(e, key) {
                assert(m[i] == e[i]);
            } else {
                assert(m[i] == e[i - 1]);
            }
        }
    }
}

/// A sound dictionary survives being encoded and decoded.
pub proof fn lemma_sound_dict_round(e: Seq<(Seq<u8>, Tree)>, room: int)
    requires
        sound_entries(e, room),
        0 < room < MAX_DEPTH,
    ensures
        Tree::Dict(e).well_formed(),
        Tree::Dict(e).fits(room + 1),
        decoded(encoding(Tree::Dict(e))) == Ok::<Tree, Error>(Tree::Dict(e)),
{
    let t = Tree::Dict(e);
    assert(t.fits(room + 1));
    lemma_fits_monotone(t, room + 1, MAX_DEPTH as int);
    law_decode_inverts_encode(t);
}

/// What fits in little room fits in more.
pub proof fn lemma_fits_monotone(t: Tree, room: int, more: int)
    requires
        t.fits(room),
        room <= more,
    ensures
        t.fits(more),
    decreases t,
{
    match t {
        Tree::List(items) => {
            assert forall|i: int| 0 <= i < items.len() implies (#[trigger] items[i]).fits(
                more - 1,
            ) by {
                lemma_fits_monotone(items[i], room - 1, more - 1);
            }
        },
        Tree::Dict(e) => {
            assert forall|i: int| 0 <= i < e.len() implies (#[trigger] e[i]).1.fits(more - 1) by {
                assert(decreases_to!(e => e[i]));
                lemma_fits_monotone(e[i].1, room - 1, more - 1);
            }
        },
        _ => {},
    }
}


// ---------------------------------------------------------------------------
// A value reads the same wherever it stands.

/// Whether `s` stands in `u` at position `k`.
pub open spec fn stands_at(s: Seq<u8>, u: Seq<u8>, k: int) -> bool {
    &&& 0 <= k
    &&& k + s.len() <= u.len()
    &&& forall|i: int| 0 <= i < s.len() ==> u[k + i] == #[trigger] s[i]
}

proof fn lemma_run_embedded(s: Seq<u8>, u: Seq<u8>, k: int, pos: int)
    requires
        stands_at(s, u, k),
        0 <= pos <= s.len(),
        digit_run_end(s, pos) < s.len(),
    ensures
        digit_run_end(u, k + pos) == k + digit_run_end(s, pos),
        u.subrange(k + pos, k + digit_run_end(s, pos)) == s.subrange(pos, digit_run_end(s, pos)),
    decreases s.len() - pos,
{
    lemma_digit_run_end(s, pos);
    let end = digit_run_end(s, pos);
    assert(u[k + pos] == s[pos]);
    if is_digit(s[pos]) {
        lemma_run_embedded(s, u, k, pos + 1);
    }
    assert(u.subrange(k + pos, k + end) =~= s.subrange(pos, end)) by {
        assert forall|i: int| 0 <= i < end - pos implies u.subrange(k + pos, k + end)[i]
            == s.subrange(pos, end)[i] by {
            assert(u[k + (pos + i)] == s[pos + i]);
        }
    }
}

proof fn lemma_bytes_embedded(s: Seq<u8>, u: Seq<u8>, k: int, pos: int)
    requires
        stands_at(s, u, k),
        0 <= pos <= s.len(),
        bytes_at(s, pos) is Ok,
    ensures
        bytes_at(u, k + pos) == Ok::<(Seq<u8>, int), Error>(
            (bytes_at(s, pos)->Ok_0.0, k + bytes_at(s, pos)->Ok_0.1),
        ),
{
    lemma_digit_run_end(s, pos);
    lemma_run_embedded(s, u, k, pos);
    let end = digit_run_end(s, pos);
    assert(u[k + end] == s[end]);
    assert(u[k + pos] == s[pos]);
    let from = span_of_bytes_at(s, pos)->Ok_0.0;
    let to = span_of_bytes_at(s, pos)->Ok_0.1;
    assert(u.subrange(k + from, k + to) =~= s.subrange(from, to)) by {
        assert forall|i: int| 0 <= i < to - from implies u.subrange(k + from, k + to)[i]
            == s.subrange(from, to)[i] by {
            assert(u[k + (from + i)] == s[from + i]);
        }
    }
}

proof fn lemma_int_embedded(s: Seq<u8>, u: Seq<u8>, k: int, pos: int)
    requires
        stands_at(s, u, k),
        0 <= pos < s.len(),
        int_at(s, pos) is Ok,
    ensures
        int_at(u, k + pos) == Ok::<(int, int), Error>(
            (int_at(s, pos)->Ok_0.0, k + int_at(s, pos)->Ok_0.1),
        ),
{
    let negative = pos + 1 < s.len() && s[pos + 1] == ('-' as u8);
    let from = if negative {
        pos + 2
    } else {
        pos + 1
    };
    lemma_digit_run_end(s, from);
    assert(pos + 1 < s.len());
    assert(u[k + (pos + 1)] == s[pos + 1]);
    lemma_run_embedded(s, u, k, from);
    let end = digit_run_end(s, from);
    assert(u[k + end] == s[end]);
    assert(u[k + from] == s[from]);
}

/// A value that can be read in `s` reads the same where `s` stands inside `u`.
pub proof fn lemma_value_embedded(s: Seq<u8>, u: Seq<u8>, k: int, pos: int, depth: int)
    requires
        stands_at(s, u, k),
        0 <= pos <= s.len(),
        value_at(s, pos, depth) is Ok,
    ensures
        value_at(u, k + pos, depth) == Ok::<(Tree, int), Error>(
            (value_at(s, pos, depth)->Ok_0.0, k + value_at(s, pos, depth)->Ok_0.1),
        ),
    decreases MAX_DEPTH - depth, s.len() - pos, 0int,
{
    assert(u[k + pos] == s[pos]);
    if s[pos] == ('i' as u8) {
        lemma_int_embedded(s, u, k, pos);
    } else if is_digit(s[pos]) {
        lemma_bytes_embedded(s, u, k, pos);
    } else if s[pos] == ('l' as u8) {
        lemma_items_embedded(s, u, k, pos + 1, depth + 1, Seq::empty());
    } else {
        lemma_entries_embedded(s, u, k, pos + 1, depth + 1, Seq::empty());
    }
}

proof fn lemma_items_embedded(
    s: Seq<u8>,
    u: Seq<u8>,
    k: int,
    pos: int,
    depth: int,
    seen: Seq<Tree>,
)
    requires
        stands_at(s, u, k),
        0 <= pos <= s.len(),
        items_at(s, pos, depth, seen) is Ok,
    ensures
        items_at(u, k + pos, depth, seen) == Ok::<(Seq<Tree>, int), Error>(
            (
                items_at(s, pos, depth, seen)->Ok_0.0,
                k + items_at(s, pos, depth, seen)->Ok_0.1,
            ),
        ),
    decreases MAX_DEPTH - depth, s.len() - pos, 1int,
{
    assert(u[k + pos] == s[pos]);
    if s[pos] != ('e' as u8) {
        lemma_value_embedded(s, u, k, pos, depth);
        lemma_value_progress(s, pos, depth);
        let t = value_at(s, pos, depth)->Ok_0.0;
        let end = value_at(s, pos, depth)->Ok_0.1;
        lemma_items_embedded(s, u, k, end, depth, seen.push(t));
    }
}

proof fn lemma_entries_embedded(
    s: Seq<u8>,
    u: Seq<u8>,
    k: int,
    pos: int,
    depth: int,
    seen: Seq<(Seq<u8>, Tree)>,
)
    requires
        stands_at(s, u, k),
        0 <= pos <= s.len(),
        entries_at(s, pos, depth, seen) is Ok,
    ensures
        entries_at(u, k + pos, depth, seen) == Ok::<(Seq<(Seq<u8>, Tree)>, int), Error>(
            (
                entries_at(s, pos, depth, seen)->Ok_0.0,
                k + entries_at(s, pos, depth, seen)->Ok_0.1,
            ),
        ),
    decreases MAX_DEPTH - depth, s.len() - pos, 1int,
{
    assert(u[k + pos] == s[pos]);
    if s[pos] != ('e' as u8) {
        lemma_bytes_embedded(s, u, k, pos);
        lemma_span_progress(s, pos);
        let key = bytes_at(s, pos)->Ok_0.0;
        let mid = bytes_at(s, pos)->Ok_0.1;
        lemma_value_embedded(s, u, k, mid, depth);
        lemma_value_progress(s, mid, depth);
        let t = value_at(s, mid, depth)->Ok_0.0;
        let end = value_at(s, mid, depth)->Ok_0.1;
        lemma_entries_embedded(s, u, k, end, depth, with_entry(seen, key, t));
    }
}

/// A value cut short is no value: no proper prefix of what decodes decodes.
pub proof fn law_prefix_is_refused(s: Seq<u8>, n: int)
    requires
        decoded(s) is Ok,
        0 <= n < s.len(),
    ensures
        decoded(s.take(n)) is Err,
{
    let cut = s.take(n);
    if decoded(cut) is Ok {
        lemma_value_embedded(cut, s, 0, 0, 0);
    }
}

proof fn lemma_run_extracted(s: Seq<u8>, u: Seq<u8>, k: int, pos: int)
    requires
        stands_at(s, u, k),
        0 <= pos <= s.len(),
        digit_run_end(u, k + pos) < k + s.len(),
    ensures
        digit_run_end(s, pos) == digit_run_end(u, k + pos) - k,
{
    lemma_digit_run_end(u, k + pos);
    let end = digit_run_end(u, k + pos) - k;
    assert forall|i: int| pos <= i < end implies is_digit(#[trigger] s[i]) by {
        assert(u[k + i] == s[i]);
    }
    assert(u[k + end] == s[end]);
    lemma_digit_run(s, pos, end);
}

/// A value that can be read inside `u` reads the same in the part `s` of `u`
/// that holds all of it, `up` levels higher.
pub proof fn lemma_value_extracted(s: Seq<u8>, u: Seq<u8>, k: int, pos: int, depth: int, up: int)
    requires
        stands_at(s, u, k),
        0 <= up,
        0 <= pos <= s.len(),
        value_at(u, k + pos, depth + up) is Ok,
        value_at(u, k + pos, depth + up)->Ok_0.1 <= k + s.len(),
    ensures
        value_at(s, pos, depth) == Ok::<(Tree, int), Error>(
            (
                value_at(u, k + pos, depth + up)->Ok_0.0,
                value_at(u, k + pos, depth + up)->Ok_0.1 - k,
            ),
        ),
    decreases MAX_DEPTH - depth, s.len() - pos, 0int,
{
    lemma_value_progress(u, k + pos, depth + up);
    assert(u[k + pos] == s[pos]);
    if s[pos] == ('i' as u8) {
        let from = if u[k + pos + 1] == ('-' as u8) {
            pos + 2
        } else {
            pos + 1
        };
        lemma_digit_run_end(u, k + from);
        assert(u[k + (pos + 1)] == s[pos + 1]);
        lemma_run_extracted(s, u, k, from);
        lemma_run_embedded(s, u, k, from);
        let end = digit_run_end(s, from);
        assert(u[k + end] == s[end]);
        assert(u[k + from] == s[from]);
    } else if is_digit(s[pos]) {
        lemma_bytes_extracted(s, u, k, pos);
    } else if s[pos] == ('l' as u8) {
        lemma_items_extracted(s, u, k, pos + 1, depth + 1, up, Seq::empty());
    } else {
        lemma_entries_extracted(s, u, k, pos + 1, depth + 1, up, Seq::empty());
    }
}

proof fn lemma_bytes_extracted(s: Seq<u8>, u: Seq<u8>, k: int, pos: int)
    requires
        stands_at(s, u, k),
        0 <= pos < s.len(),
        bytes_at(u, k + pos) is Ok,
        bytes_at(u, k + pos)->Ok_0.1 <= k + s.len(),
    ensures
        bytes_at(s, pos) == Ok::<(Seq<u8>, int), Error>(
            (bytes_at(u, k + pos)->Ok_0.0, bytes_at(u, k + pos)->Ok_0.1 - k),
        ),
{
    lemma_digit_run_end(u, k + pos);
    lemma_run_extracted(s, u, k, pos);
    lemma_run_embedded(s, u, k, pos);
    let end = digit_run_end(s, pos);
    assert(u[k + end] == s[end]);
    assert(u[k + pos] == s[pos]);
    assert(bytes_at(s, pos) is Ok);
    lemma_bytes_embedded(s, u, k, pos);
}

proof fn lemma_items_extracted(
    s: Seq<u8>,
    u: Seq<u8>,
    k: int,
    pos: int,
    depth: int,
    up: int,
    seen: Seq<Tree>,
)
    requires
        stands_at(s, u, k),
        0 <= up,
        0 <= pos <= s.len(),
        items_at(u, k + pos, depth + up, seen) is Ok,
        items_at(u, k + pos, depth + up, seen)->Ok_0.1 <= k + s.len(),
    ensures
        items_at(s, pos, depth, seen) == Ok::<(Seq<Tree>, int), Error>(
            (
                items_at(u, k + pos, depth + up, seen)->Ok_0.0,
                items_at(u, k + pos, depth + up, seen)->Ok_0.1 - k,
            ),
        ),
    decreases MAX_DEPTH - depth, s.len() - pos, 1int,
{
    lemma_items_progress(u, k + pos, depth + up, seen);
    assert(u[k + pos] == s[pos]);
    if s[pos] != ('e' as u8) {
        lemma_value_progress(u, k + pos, depth + up);
        let t = value_at(u, k + pos, depth + up)->Ok_0.0;
        let end = value_at(u, k + pos, depth + up)->Ok_0.1 - k;
        lemma_items_progress(u, k + end, depth + up, seen.push(t));
        lemma_value_extracted(s, u, k, pos, depth, up);
        lemma_items_extracted(s, u, k, end, depth, up, seen.push(t));
    }
}

proof fn lemma_entries_extracted(
    s: Seq<u8>,
    u: Seq<u8>,
    k: int,
    pos: int,
    depth: int,
    up: int,
    seen: Seq<(Seq<u8>, Tree)>,
)
    requires
        stands_at(s, u, k),
        0 <= up,
        0 <= pos <= s.len(),
        entries_at(u, k + pos, depth + up, seen) is Ok,
        entries_at(u, k + pos, depth + up, seen)->Ok_0.1 <= k + s.len(),
    ensures
        entries_at(s, pos, depth, seen) == Ok::<(Seq<(Seq<u8>, Tree)>, int), Error>(
            (
                entries_at(u, k + pos, depth + up, seen)->Ok_0.0,
                entries_at(u, k + pos, depth + up, seen)->Ok_0.1 - k,
            ),
        ),
    decreases MAX_DEPTH - depth, s.len() - pos, 1int,
{
    lemma_entries_progress(u, k + pos, depth + up, seen);
    assert(u[k + pos] == s[pos]);
    if s[pos] != ('e' as u8) {
        lemma_span_progress(u, k + pos);
        let key = bytes_at(u, k + pos)->Ok_0.0;
        let mid = bytes_at(u, k + pos)->Ok_0.1 - k;
        lemma_value_progress(u, k + mid, depth + up);
        let t = value_at(u, k + mid, depth + up)->Ok_0.0;
        let end = value_at(u, k + mid, depth + up)->Ok_0.1 - k;
        lemma_entries_progress(u, k + end, depth + up, with_entry(seen, key, t));
        lemma_bytes_extracted(s, u, k, pos);
        lemma_value_extracted(s, u, k, mid, depth, up);
        lemma_entries_extracted(s, u, k, end, depth, up, with_entry(seen, key, t));
    }
}


/// What `lookup` finds is one of the entries.
pub proof fn lemma_lookup_some(e: Seq<(Seq<u8>, Tree)>, key: Seq<u8>)
    ensures
        lookup(e, key) matches Some(t) ==> exists|i: int|
            0 <= i < e.len() && #[trigger] e[i] == (key, t),
    decreases e.len(),
{
    if e.len() > 0 {
        if e.last().0 == key {
            assert(e[e.len() - 1] == (key, e.last().1));
        } else {
            lemma_lookup_some(e.drop_last(), key);
            if let Some(t) = lookup(e, key) {
                let i = choose|i: int|
                    0 <= i < e.drop_last().len() && #[trigger] e.drop_last()[i] == (key, t);
                assert(e[i] == (key, t));
            }
        }
    }
}


/// The entries once the first `n` of `kvs` are stored, one after the other.
pub open spec fn built(kvs: Seq<(Seq<u8>, Tree)>, n: int) -> Seq<(Seq<u8>, Tree)>
    decreases n,
{
    if n <= 0 {
        Seq::empty()
    } else {
        stored(built(kvs, n - 1), kvs[n - 1].0, kvs[n - 1].1)
    }
}

/// A dictionary built of distinct keys holds exactly those, each with its
/// value.
pub proof fn lemma_built(kvs: Seq<(Seq<u8>, Tree)>, n: int, room: int)
    requires
        0 <= n <= kvs.len(),
        forall|i: int, j: int|
            0 <= i < j < kvs.len() ==> (#[trigger] kvs[i]).0 != (#[trigger] kvs[j]).0,
        forall|i: int|
            0 <= i < kvs.len() ==> (#[trigger] kvs[i]).0.len() <= usize::MAX
                && kvs[i].1.well_formed() && kvs[i].1.fits(room),
    ensures
        sound_entries(built(kvs, n), room),
        forall|i: int|
            0 <= i < n ==> lookup(built(kvs, n), (#[trigger] kvs[i]).0) == Some(kvs[i].1),
        forall|k: Seq<u8>| #[trigger]
            has_key(built(kvs, n), k) ==> exists|i: int| 0 <= i < n && (#[trigger] kvs[i]).0 == k,
    decreases n,
{
    if n > 0 {
        lemma_built(kvs, n - 1, room);
        let e = built(kvs, n - 1);
        let key = kvs[n - 1].0;
        let t = kvs[n - 1].1;
        lemma_stored_sound(e, key, t, room);
        assert forall|i: int| 0 <= i < n implies lookup(built(kvs, n), (#[trigger] kvs[i]).0)
            == Some(kvs[i].1) by {
            law_stored_is_found(e, key, t, kvs[i].0);
        }
        assert forall|k: Seq<u8>| #[trigger] has_key(built(kvs, n), k) implies exists|i: int|
            0 <= i < n && (#[trigger] kvs[i]).0 == k by {
            law_stored_is_found(e, key, t, k);
            lemma_lookup_none(built(kvs, n), k);
            lemma_lookup_none(e, k);
            if k == key {
                assert(kvs[n - 1].0 == k);
            }
        }
    }
}

} // verus!
