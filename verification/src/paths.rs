//! File paths that would collide on disk.
//!
//! Two entries with the same path alias the same file at different offsets in
//! the torrent's byte space, and a path that is a strict prefix of another
//! wants a file where the other wants a directory. Paths are compared
//! case-folded, because the filesystem may.
use vstd::prelude::*;
#[allow(unused_imports)]
use vstd::seq_lib::*;
#[allow(unused_imports)]
use vstd::string::*;
#[allow(unused_imports)]
use vstd::utf8::*;
use crate::bencode::{
    key_less, lemma_lex_irreflexive, lemma_lex_total, lemma_lex_transitive, lex_less,
};
use crate::strings::{bytes_eq, copy_range};

verus! {

/// The lower-case form of a text.
pub uninterp spec fn folded(s: Seq<char>) -> Seq<char>;

/// `str::to_lowercase`: the lower-case form of a text, by Unicode's rules.
/// What it is on given text is not stated.
#[verifier::external_body]
fn fold_case(s: &str) -> (r: String)
    ensures
        r@ == folded(s@),
{
    s.to_lowercase()
}

/// A path's components, case-folded, as bytes.
pub open spec fn folded_path(path: Seq<Seq<char>>) -> Seq<Seq<u8>> {
    Seq::new(path.len(), |i: int| encode_utf8(folded(path[i])))
}

/// The order in which paths sort: component by component.
pub open spec fn path_less(p: Seq<Seq<u8>>, q: Seq<Seq<u8>>) -> bool
    decreases p.len(),
{
    if q.len() == 0 {
        false
    } else if p.len() == 0 {
        true
    } else if p[0] != q[0] {
        lex_less(p[0], q[0])
    } else {
        path_less(p.skip(1), q.skip(1))
    }
}

/// Whether `q` starts with all of `p`.
pub open spec fn is_prefix(p: Seq<Seq<u8>>, q: Seq<Seq<u8>>) -> bool {
    p.len() <= q.len() && q.take(p.len() as int) == p
}

/// Whether path `i` is a prefix of another path, or the same.
pub open spec fn clashes(f: Seq<Seq<Seq<u8>>>, i: int) -> bool {
    0 <= i < f.len() && exists|j: int|
        0 <= j < f.len() && j != i && is_prefix(f[i], #[trigger] f[j])
}

/// Whether path `i` is the first, in the order in which paths sort, that
/// clashes.
pub open spec fn first_clash(f: Seq<Seq<Seq<u8>>>, i: int) -> bool {
    clashes(f, i) && forall|k: int| #[trigger] clashes(f, k) ==> !path_less(f[k], f[i])
}

/// Whether path `i` occurs twice.
pub open spec fn occurs_twice(f: Seq<Seq<Seq<u8>>>, i: int) -> bool {
    exists|j: int| 0 <= j < f.len() && j != i && #[trigger] f[j] == f[i]
}

/// How paths can clash.
#[derive(Clone, Copy, Debug, PartialEq, Eq)]
pub enum Clash {
    /// Two files have the same path.
    Same,
    /// A file's path is another's directory.
    Directory,
}

/// What is wrong with a list of paths, if anything.
pub open spec fn clash_of(f: Seq<Seq<Seq<u8>>>) -> Option<Clash> {
    if exists|i: int| first_clash(f, i) {
        if exists|i: int| first_clash(f, i) && occurs_twice(f, i) {
            Some(Clash::Same)
        } else {
            Some(Clash::Directory)
        }
    } else {
        None
    }
}

// ---------------------------------------------------------------------------
// The order.

proof fn lemma_path_irreflexive(p: Seq<Seq<u8>>)
    ensures
        !path_less(p, p),
    decreases p.len(),
{
    if p.len() > 0 {
        lemma_path_irreflexive(p.skip(1));
    }
}

proof fn lemma_path_transitive(p: Seq<Seq<u8>>, q: Seq<Seq<u8>>, r: Seq<Seq<u8>>)
    requires
        path_less(p, q),
        path_less(q, r),
    ensures
        path_less(p, r),
    decreases p.len(),
{
    if p.len() > 0 && q.len() > 0 && r.len() > 0 {
        if p[0] == q[0] && q[0] == r[0] {
            lemma_path_transitive(p.skip(1), q.skip(1), r.skip(1));
        } else if p[0] != q[0] && q[0] != r[0] {
            lemma_lex_transitive(p[0], q[0], r[0]);
            lemma_lex_irreflexive(p[0]);
        }
    }
}

proof fn lemma_path_total(p: Seq<Seq<u8>>, q: Seq<Seq<u8>>)
    ensures
        path_less(p, q) || p == q || path_less(q, p),
    decreases p.len(),
{
    if p.len() == 0 && q.len() == 0 {
        assert(p =~= q);
    } else if p.len() > 0 && q.len() > 0 {
        if p[0] == q[0] {
            lemma_path_total(p.skip(1), q.skip(1));
            if p.skip(1) == q.skip(1) {
                assert(p =~= seq![p[0]] + p.skip(1));
                assert(q =~= seq![q[0]] + q.skip(1));
            }
        } else {
            lemma_lex_total(p[0], q[0]);
        }
    }
}

/// What is not below stays not below.
proof fn lemma_path_weak(p: Seq<Seq<u8>>, q: Seq<Seq<u8>>, r: Seq<Seq<u8>>)
    requires
        !path_less(q, p),
        !path_less(r, q),
    ensures
        !path_less(r, p),
{
    lemma_path_total(p, q);
    lemma_path_total(q, r);
    if path_less(r, p) {
        if path_less(p, q) {
            lemma_path_transitive(r, p, q);
        }
    }
}

/// A prefix never comes after what it is a prefix of.
proof fn lemma_prefix_not_after(p: Seq<Seq<u8>>, q: Seq<Seq<u8>>)
    requires
        is_prefix(p, q),
    ensures
        !path_less(q, p),
    decreases p.len(),
{
    if p.len() > 0 {
        assert(q.take(p.len() as int)[0] == q[0]);
        assert(q.skip(1).take(p.len() - 1) =~= p.skip(1)) by {
            assert(q.take(p.len() as int).skip(1) =~= q.skip(1).take(p.len() - 1));
        }
        lemma_prefix_not_after(p.skip(1), q.skip(1));
    }
}

/// What sorts between a path and one it is a prefix of has it as a prefix
/// too.
proof fn lemma_prefix_between(p: Seq<Seq<u8>>, r: Seq<Seq<u8>>, q: Seq<Seq<u8>>)
    requires
        is_prefix(p, q),
        !path_less(r, p),
        !path_less(q, r),
    ensures
        is_prefix(p, r),
    decreases p.len(),
{
    if p.len() > 0 {
        assert(q.take(p.len() as int)[0] == q[0]);
        assert(q.take(p.len() as int).skip(1) =~= q.skip(1).take(p.len() - 1));
        assert(r.len() > 0);
        lemma_lex_total(r[0], p[0]);
        assert(r[0] == p[0]);
        lemma_prefix_between(p.skip(1), r.skip(1), q.skip(1));
        assert(r.take(p.len() as int) =~= p) by {
            assert forall|i: int| 0 <= i < p.len() implies r[i] == p[i] by {
                if i > 0 {
                    assert(r.skip(1).take(p.len() - 1)[i - 1] == r[i]);
                    assert(p.skip(1)[i - 1] == p[i]);
                }
            }
        }
    } else {
        assert(r.take(0) =~= p);
    }
}

// ---------------------------------------------------------------------------
// Sorting.

/// What a vector of components holds.
pub open spec fn path_view(p: Vec<Vec<u8>>) -> Seq<Seq<u8>> {
    Seq::new(p@.len(), |i: int| p@[i]@)
}

/// What a vector of paths holds.
pub open spec fn paths_view(v: Seq<Vec<Vec<u8>>>) -> Seq<Seq<Seq<u8>>> {
    Seq::new(v.len(), |i: int| path_view(v[i]))
}

fn path_before(p: &Vec<Vec<u8>>, q: &Vec<Vec<u8>>) -> (r: bool)
    ensures
        r == path_less(path_view(*p), path_view(*q)),
{
    let ghost a = path_view(*p);
    let ghost b = path_view(*q);
    let mut i: usize = 0;
    proof {
        assert(a.skip(0) =~= a);
        assert(b.skip(0) =~= b);
    }
    while i < p.len() && i < q.len()
        invariant
            i <= p@.len(),
            i <= q@.len(),
            a == path_view(*p),
            b == path_view(*q),
            path_less(a, b) == path_less(a.skip(i as int), b.skip(i as int)),
        decreases p.len() - i,
    {
        if !bytes_eq(p[i].as_slice(), q[i].as_slice()) {
            return key_less(p[i].as_slice(), q[i].as_slice());
        }
        proof {
            assert(a.skip(i as int).skip(1) =~= a.skip(i as int + 1));
            assert(b.skip(i as int).skip(1) =~= b.skip(i as int + 1));
        }
        i = i + 1;
    }
    i < q.len()
}

fn path_eq(p: &Vec<Vec<u8>>, q: &Vec<Vec<u8>>) -> (r: bool)
    ensures
        r == (path_view(*p) == path_view(*q)),
{
    proof {
        assert(path_view(*p).len() == p@.len() && path_view(*q).len() == q@.len());
    }
    p.len() == q.len() && path_prefix(p, q)
}

fn path_prefix(p: &Vec<Vec<u8>>, q: &Vec<Vec<u8>>) -> (r: bool)
    ensures
        r == is_prefix(path_view(*p), path_view(*q)),
        p@.len() == q@.len() ==> r == (path_view(*p) == path_view(*q)),
{
    let ghost a = path_view(*p);
    let ghost b = path_view(*q);
    if p.len() > q.len() {
        return false;
    }
    let mut i: usize = 0;
    while i < p.len()
        invariant
            i <= p@.len() <= q@.len(),
            a == path_view(*p),
            b == path_view(*q),
            forall|j: int| 0 <= j < i ==> a[j] == b[j],
        decreases p.len() - i,
    {
        if !bytes_eq(p[i].as_slice(), q[i].as_slice()) {
            proof {
                assert(a[i as int] != b[i as int]);
                assert(b.take(a.len() as int)[i as int] == b[i as int]);
            }
            return false;
        }
        i = i + 1;
    }
    proof {
        assert(b.take(a.len() as int) =~= a);
        if a.len() == b.len() {
            assert(a =~= b);
        }
    }
    true
}

/// Whether positions are listed in the order in which the paths there sort.
spec fn in_order(f: Seq<Seq<Seq<u8>>>, o: Seq<usize>) -> bool {
    forall|i: int, j: int|
        0 <= i < j < o.len() ==> !path_less(f[#[trigger] o[j] as int], f[#[trigger] o[i] as int])
}

spec fn within(f: Seq<Seq<Seq<u8>>>, o: Seq<usize>) -> bool {
    forall|i: int| 0 <= i < o.len() ==> (#[trigger] o[i]) < f.len()
}

fn merge_order(paths: &Vec<Vec<Vec<u8>>>, a: &Vec<usize>, b: &Vec<usize>) -> (out: Vec<usize>)
    requires
        in_order(paths_view(paths@), a@),
        in_order(paths_view(paths@), b@),
        within(paths_view(paths@), a@),
        within(paths_view(paths@), b@),
    ensures
        in_order(paths_view(paths@), out@),
        within(paths_view(paths@), out@),
        out@.to_multiset() == a@.to_multiset().add(b@.to_multiset()),
{
    broadcast use group_to_multiset_ensures;

    let ghost f = paths_view(paths@);
    let mut out: Vec<usize> = Vec::new();
    let mut i: usize = 0;
    let mut j: usize = 0;
    proof {
        assert(a@.take(0) =~= Seq::empty());
        assert(b@.take(0) =~= Seq::empty());
        assert(out@.to_multiset() =~= a@.take(0).to_multiset().add(b@.take(0).to_multiset()));
    }
    while i < a.len() || j < b.len()
        invariant
            i <= a.len(),
            j <= b.len(),
            f == paths_view(paths@),
            in_order(f, a@),
            in_order(f, b@),
            within(f, a@),
            within(f, b@),
            within(f, out@),
            in_order(f, out@),
            forall|x: int, y: int|
                0 <= x < out.len() && i <= y < a.len() ==> !path_less(
                    f[#[trigger] a@[y] as int],
                    f[#[trigger] out@[x] as int],
                ),
            forall|x: int, y: int|
                0 <= x < out.len() && j <= y < b.len() ==> !path_less(
                    f[#[trigger] b@[y] as int],
                    f[#[trigger] out@[x] as int],
                ),
            out@.to_multiset() == a@.take(i as int).to_multiset().add(
                b@.take(j as int).to_multiset(),
            ),
        decreases (a.len() - i) + (b.len() - j),
    {
        let from_a = i < a.len() && (j >= b.len() || !path_before(&paths[b[j]], &paths[a[i]]));
        let ghost had = out@;
        if from_a {
            out.push(a[i]);
            proof {
                let x0 = a@[i as int];
                assert(a@.take(i as int + 1) =~= a@.take(i as int).push(x0));
                had.to_multiset_ensures();
                a@.take(i as int).to_multiset_ensures();
                assert(out@ == had.push(x0));
                assert(out@.to_multiset() =~= a@.take(i as int + 1).to_multiset().add(
                    b@.take(j as int).to_multiset(),
                ));
                assert forall|x: int, y: int|
                    0 <= x < out.len() && j <= y < b.len() implies !path_less(
                    f[#[trigger] b@[y] as int],
                    f[#[trigger] out@[x] as int],
                ) by {
                    if x == had.len() {
                        if y > j {
                            assert(!path_less(f[b@[y] as int], f[b@[j as int] as int]));
                            lemma_path_weak(
                                f[x0 as int],
                                f[b@[j as int] as int],
                                f[b@[y] as int],
                            );
                        }
                    } else {
                        assert(out@[x] == had[x]);
                    }
                }
                assert forall|x: int, y: int|
                    0 <= x < out.len() && i + 1 <= y < a.len() implies !path_less(
                    f[#[trigger] a@[y] as int],
                    f[#[trigger] out@[x] as int],
                ) by {
                    if x < had.len() {
                        assert(out@[x] == had[x]);
                    }
                }
            }
            i = i + 1;
        } else {
            out.push(b[j]);
            proof {
                let x0 = b@[j as int];
                assert(b@.take(j as int + 1) =~= b@.take(j as int).push(x0));
                had.to_multiset_ensures();
                b@.take(j as int).to_multiset_ensures();
                assert(out@ == had.push(x0));
                assert(out@.to_multiset() =~= a@.take(i as int).to_multiset().add(
                    b@.take(j as int + 1).to_multiset(),
                ));
                assert forall|x: int, y: int|
                    0 <= x < out.len() && i <= y < a.len() implies !path_less(
                    f[#[trigger] a@[y] as int],
                    f[#[trigger] out@[x] as int],
                ) by {
                    if x == had.len() {
                        lemma_path_total(f[x0 as int], f[a@[i as int] as int]);
                        if path_less(f[a@[i as int] as int], f[x0 as int]) {
                            lemma_path_transitive(
                                f[a@[i as int] as int],
                                f[x0 as int],
                                f[a@[i as int] as int],
                            );
                            lemma_path_irreflexive(f[a@[i as int] as int]);
                        }
                        if y > i {
                            assert(!path_less(f[a@[y] as int], f[a@[i as int] as int]));
                            lemma_path_weak(
                                f[x0 as int],
                                f[a@[i as int] as int],
                                f[a@[y] as int],
                            );
                        }
                    } else {
                        assert(out@[x] == had[x]);
                    }
                }
                assert forall|x: int, y: int|
                    0 <= x < out.len() && j + 1 <= y < b.len() implies !path_less(
                    f[#[trigger] b@[y] as int],
                    f[#[trigger] out@[x] as int],
                ) by {
                    if x < had.len() {
                        assert(out@[x] == had[x]);
                    }
                }
            }
            j = j + 1;
        }
    }
    proof {
        assert(a@.take(i as int) =~= a@);
        assert(b@.take(j as int) =~= b@);
    }
    out
}

fn sort_range(paths: &Vec<Vec<Vec<u8>>>, from: usize, to: usize) -> (out: Vec<usize>)
    requires
        from <= to <= paths@.len(),
    ensures
        in_order(paths_view(paths@), out@),
        within(paths_view(paths@), out@),
        out@.to_multiset() == positions(from as int, to as int).to_multiset(),
    decreases to - from,
{
    broadcast use group_to_multiset_ensures;

    if to - from <= 1 {
        let mut out: Vec<usize> = Vec::new();
        if to > from {
            out.push(from);
        }
        proof {
            assert(out@ =~= positions(from as int, to as int));
        }
        return out;
    }
    let mid: usize = from + (to - from) / 2;
    let a = sort_range(paths, from, mid);
    let b = sort_range(paths, mid, to);
    proof {
        let p = positions(from as int, mid as int);
        let q = positions(mid as int, to as int);
        assert(positions(from as int, to as int) =~= p + q);
        lemma_multiset_commutative(p, q);
    }
    merge_order(paths, &a, &b)
}

spec fn positions(from: int, to: int) -> Seq<usize> {
    Seq::new((to - from) as nat, |i: int| (from + i) as usize)
}

/// A sorted list of all positions lists each once.
proof fn lemma_listed_once(n: int, o: Seq<usize>)
    requires
        0 <= n <= usize::MAX,
        o.to_multiset() == positions(0, n).to_multiset(),
    ensures
        o.len() == n,
        o.no_duplicates(),
        forall|i: int| 0 <= i < n ==> o.contains(#[trigger] (i as usize)),
{
    broadcast use group_to_multiset_ensures;

    let p = positions(0, n);
    assert(p.no_duplicates());
    p.lemma_multiset_has_no_duplicates();
    o.lemma_multiset_has_no_duplicates_conv();
    assert(o.len() == o.to_multiset().len());
    assert forall|i: int| 0 <= i < n implies o.contains(#[trigger] (i as usize)) by {
        assert(p[i] == i as usize);
        assert(p.contains(i as usize));
        assert(o.to_multiset().count(i as usize) > 0);
    }
}

// ---------------------------------------------------------------------------
// The check.

/// What a vector of names holds.
pub open spec fn names_view(v: Vec<String>) -> Seq<Seq<char>> {
    Seq::new(v@.len(), |i: int| v@[i]@)
}

/// The case-folded components of a path.
pub fn fold_path(path: &Vec<String>) -> (r: Vec<Vec<u8>>)
    ensures
        path_view(r) == folded_path(names_view(*path)),
{
    let mut out: Vec<Vec<u8>> = Vec::new();
    let mut i: usize = 0;
    while i < path.len()
        invariant
            i <= path@.len(),
            out@.len() == i,
            forall|j: int| 0 <= j < i ==> (#[trigger] out@[j])@ == encode_utf8(folded(path@[j]@)),
        decreases path.len() - i,
    {
        let low = fold_case(path[i].as_str());
        let b = low.as_str().as_bytes();
        let c = copy_range(b, 0, b.len());
        proof {
            assert(c@ =~= b@);
        }
        out.push(c);
        i = i + 1;
    }
    proof {
        assert(path_view(out) =~= folded_path(names_view(*path)));
    }
    out
}

/// What is wrong with a list of paths, if anything. Sorting makes this a scan
/// of neighbours: a clash always shows up in an adjacent pair.
pub fn find_clash(paths: &Vec<Vec<Vec<u8>>>) -> (r: Option<Clash>)
    ensures
        r == clash_of(paths_view(paths@)),
{
    let ghost f = paths_view(paths@);
    let order = sort_range(paths, 0, paths.len());
    proof {
        lemma_listed_once(paths@.len() as int, order@);
    }
    let ghost o = order@;
    let mut k: usize = 0;
    while order.len() >= 2 && k < order.len() - 1
        invariant
            k <= order.len(),
            o == order@,
            f == paths_view(paths@),
            o.len() == f.len(),
            f.len() <= usize::MAX,
            o.no_duplicates(),
            in_order(f, o),
            within(f, o),
            forall|i: int| 0 <= i < f.len() ==> o.contains(#[trigger] (i as usize)),
            forall|i: int|
                0 <= i < k && i + 1 < o.len() ==> !is_prefix(
                    f[#[trigger] o[i] as int],
                    f[o[i + 1] as int],
                ),
        decreases order.len() - k,
    {
        let p = &paths[order[k]];
        let q = &paths[order[k + 1]];
        if path_eq(p, q) {
            proof {
                let i = o[k as int] as int;
                let j = o[k + 1] as int;
                assert(f[j].take(f[i].len() as int) =~= f[i]);
                assert(is_prefix(f[i], f[j]));
                lemma_first_clash(f, o, k as int);
                assert(f[j] == f[i]);
                assert(occurs_twice(f, i));
                assert(first_clash(f, i) && occurs_twice(f, i));
            }
            return Some(Clash::Same);
        }
        if path_prefix(p, q) {
            proof {
                let i = o[k as int] as int;
                lemma_first_clash(f, o, k as int);
                assert forall|m: int| !(first_clash(f, m) && occurs_twice(f, m)) by {
                    lemma_no_twin(f, o, k as int, m);
                }
            }
            return Some(Clash::Directory);
        }
        k = k + 1;
    }
    proof {
        assert forall|i: int| !first_clash(f, i) by {
            if clashes(f, i) {
                let m = choose|m: int| 0 <= m < o.len() && o[m] == i as usize;
                assert(o.contains(i as usize));
                lemma_clash_is_adjacent(f, o, m);
            }
        }
    }
    None
}

/// A path that clashes has a clash next to it, there or before.
proof fn lemma_clash_is_adjacent(f: Seq<Seq<Seq<u8>>>, o: Seq<usize>, m: int)
    requires
        o.len() == f.len(),
        f.len() <= usize::MAX,
        o.no_duplicates(),
        in_order(f, o),
        within(f, o),
        forall|i: int| 0 <= i < f.len() ==> o.contains(#[trigger] (i as usize)),
        0 <= m < o.len(),
        clashes(f, o[m] as int),
    ensures
        exists|i: int|
            0 <= i <= m && i + 1 < o.len() && is_prefix(
                f[#[trigger] o[i] as int],
                f[o[i + 1] as int],
            ),
{
    let i = o[m] as int;
    let j = choose|j: int| 0 <= j < f.len() && j != i && is_prefix(f[i], #[trigger] f[j]);
    assert(o.contains(j as usize));
    let n = choose|n: int| 0 <= n < o.len() && o[n] == j as usize;
    let p = f[i];
    if n > m {
        let r = f[o[m + 1] as int];
        assert(!path_less(f[o[m + 1] as int], f[o[m] as int]));
        if n > m + 1 {
            assert(!path_less(f[o[n] as int], f[o[m + 1] as int]));
        } else {
            lemma_path_irreflexive(r);
        }
        lemma_prefix_between(p, r, f[j]);
        assert(is_prefix(f[o[m] as int], f[o[m + 1] as int]));
    } else {
        // The other sorts no later and has this as a prefix: they are equal.
        let q = f[o[n] as int];
        assert(!path_less(f[o[m] as int], f[o[n] as int]));
        lemma_prefix_not_after(p, q);
        lemma_path_total(p, q);
        assert(p == q);
        let r = f[o[n + 1] as int];
        assert(!path_less(f[o[n + 1] as int], f[o[n] as int]));
        if n + 1 < m {
            assert(!path_less(f[o[m] as int], f[o[n + 1] as int]));
        } else {
            lemma_path_irreflexive(r);
        }
        lemma_path_total(q, r);
        assert(r == q);
        assert(r.take(q.len() as int) =~= q);
        assert(is_prefix(f[o[n] as int], f[o[n + 1] as int]));
    }
}

/// The first adjacent clash in sorted order is the first clash.
proof fn lemma_first_clash(f: Seq<Seq<Seq<u8>>>, o: Seq<usize>, k: int)
    requires
        o.len() == f.len(),
        f.len() <= usize::MAX,
        o.no_duplicates(),
        in_order(f, o),
        within(f, o),
        forall|i: int| 0 <= i < f.len() ==> o.contains(#[trigger] (i as usize)),
        0 <= k,
        k + 1 < o.len(),
        is_prefix(f[o[k] as int], f[o[k + 1] as int]),
        forall|i: int|
            0 <= i < k ==> !is_prefix(f[#[trigger] o[i] as int], f[o[i + 1] as int]),
    ensures
        first_clash(f, o[k] as int),
{
    let i = o[k] as int;
    assert(clashes(f, i)) by {
        let j = o[k + 1] as int;
        assert(o[k] != o[k + 1]);
        assert(is_prefix(f[i], f[j]));
    }
    assert forall|c: int| #[trigger] clashes(f, c) implies !path_less(f[c], f[i]) by {
        assert(o.contains(c as usize));
        let m = choose|m: int| 0 <= m < o.len() && o[m] == c as usize;
        lemma_clash_is_adjacent(f, o, m);
        let a = choose|a: int|
            0 <= a <= m && a + 1 < o.len() && is_prefix(
                f[#[trigger] o[a] as int],
                f[o[a + 1] as int],
            );
        assert(a >= k);
        if m > k {
            assert(!path_less(f[o[m] as int], f[o[k] as int]));
        } else {
            lemma_path_irreflexive(f[i]);
        }
    }
}

/// If the first adjacent clash is not between equal paths, no first clash
/// occurs twice.
proof fn lemma_no_twin(f: Seq<Seq<Seq<u8>>>, o: Seq<usize>, k: int, c: int)
    requires
        o.len() == f.len(),
        f.len() <= usize::MAX,
        o.no_duplicates(),
        in_order(f, o),
        within(f, o),
        forall|i: int| 0 <= i < f.len() ==> o.contains(#[trigger] (i as usize)),
        0 <= k,
        k + 1 < o.len(),
        first_clash(f, o[k] as int),
        f[o[k] as int] != f[o[k + 1] as int],
        forall|i: int|
            0 <= i < k ==> !is_prefix(f[#[trigger] o[i] as int], f[o[i + 1] as int]),
    ensures
        !(first_clash(f, c) && occurs_twice(f, c)),
{
    if !(first_clash(f, c) && occurs_twice(f, c)) {
        return;
    }
    let i = o[k] as int;
    let p = f[i];
    assert(clashes(f, i));
    assert(!path_less(f[i], f[c]));
    assert(!path_less(f[c], f[i]));
    lemma_path_total(f[i], f[c]);
    assert(f[c] == p);
    let d = choose|d: int| 0 <= d < f.len() && d != c && #[trigger] f[d] == f[c];
    // One of the two equal paths is not the one at position k.
    let e = if c == i {
        d
    } else {
        c
    };
    assert(f[e] == p && e != i);
    assert(o.contains(e as usize));
    let m = choose|m: int| 0 <= m < o.len() && o[m] == e as usize;
    if m > k {
        let r = f[o[k + 1] as int];
        assert(!path_less(f[o[k + 1] as int], f[o[k] as int]));
        if m > k + 1 {
            assert(!path_less(f[o[m] as int], f[o[k + 1] as int]));
        } else {
            lemma_path_irreflexive(r);
        }
        lemma_path_total(p, r);
        assert(false);
    } else {
        let r = f[o[m + 1] as int];
        assert(!path_less(f[o[m + 1] as int], f[o[m] as int]));
        if m + 1 < k {
            assert(!path_less(f[o[k] as int], f[o[m + 1] as int]));
        } else {
            lemma_path_irreflexive(r);
        }
        lemma_path_total(p, r);
        assert(r == p);
        assert(r.take(p.len() as int) =~= p);
        assert(is_prefix(f[o[m] as int], f[o[m + 1] as int]));
        assert(false);
    }
}

/// Paths are accepted exactly when no path is a prefix of another, nor the
/// same.
pub proof fn law_accepted_paths_are_disjoint(f: Seq<Seq<Seq<u8>>>)
    requires
        f.len() <= usize::MAX,
    ensures
        clash_of(f) is None <==> (forall|i: int, j: int|
            0 <= i < f.len() && 0 <= j < f.len() && i != j ==> !is_prefix(
                #[trigger] f[i],
                #[trigger] f[j],
            )),
{
    if clash_of(f) is None {
        assert forall|i: int, j: int|
            0 <= i < f.len() && 0 <= j < f.len() && i != j implies !is_prefix(
            #[trigger] f[i],
            #[trigger] f[j],
        ) by {
            if is_prefix(f[i], f[j]) {
                assert(clashes(f, i));
                let c = lemma_least_clash(f, f.len() as int, i);
                assert(first_clash(f, c));
            }
        }
    } else {
        let i = choose|i: int| first_clash(f, i);
        let j = choose|j: int| 0 <= j < f.len() && j != i && is_prefix(f[i], #[trigger] f[j]);
        assert(is_prefix(f[i], f[j]));
    }
}

/// Where something clashes, something clashes first.
proof fn lemma_least_clash(f: Seq<Seq<Seq<u8>>>, n: int, seed: int) -> (c: int)
    requires
        0 <= n <= f.len(),
        clashes(f, seed),
    ensures
        clashes(f, c),
        !path_less(f[seed], f[c]),
        forall|k: int| k < n && #[trigger] clashes(f, k) ==> !path_less(f[k], f[c]),
    decreases n,
{
    if n == 0 {
        lemma_path_irreflexive(f[seed]);
        seed
    } else {
        let c = lemma_least_clash(f, n - 1, seed);
        if clashes(f, n - 1) && path_less(f[n - 1], f[c]) {
            assert forall|k: int| k < n && #[trigger] clashes(f, k) implies !path_less(
                f[k],
                f[n - 1],
            ) by {
                if k == n - 1 {
                    lemma_path_irreflexive(f[k]);
                } else if path_less(f[k], f[n - 1]) {
                    lemma_path_transitive(f[k], f[n - 1], f[c]);
                }
            }
            if path_less(f[seed], f[n - 1]) {
                lemma_path_transitive(f[seed], f[n - 1], f[c]);
            }
            n - 1
        } else {
            c
        }
    }
}

/// Two files of the same path are told apart from a file whose path another's
/// goes through: where every clash is of the one kind, that kind is reported.
pub proof fn law_kind_of_clash(f: Seq<Seq<Seq<u8>>>)
    requires
        f.len() <= usize::MAX,
        clash_of(f) is Some,
    ensures
        (forall|i: int, j: int|
            0 <= i < f.len() && 0 <= j < f.len() && i != j ==> #[trigger] f[i] != #[trigger] f[j])
            ==> clash_of(f) == Some(Clash::Directory),
        (forall|i: int, j: int|
            0 <= i < f.len() && 0 <= j < f.len() && (#[trigger] f[i]).len() != (
            #[trigger] f[j]).len() ==> f[j].take(f[i].len() as int) != f[i] || f[i].len()
                > f[j].len()) ==> clash_of(f) == Some(Clash::Same),
{
    if forall|i: int, j: int|
        0 <= i < f.len() && 0 <= j < f.len() && i != j ==> #[trigger] f[i] != #[trigger] f[j] {
        assert forall|i: int| first_clash(f, i) implies !occurs_twice(f, i) by {
            if occurs_twice(f, i) {
                let j = choose|j: int| 0 <= j < f.len() && j != i && #[trigger] f[j] == f[i];
                assert(f[i] != f[j]);
            }
        }
    }
    if forall|i: int, j: int|
        0 <= i < f.len() && 0 <= j < f.len() && (#[trigger] f[i]).len() != (#[trigger] f[j]).len()
            ==> f[j].take(f[i].len() as int) != f[i] || f[i].len() > f[j].len() {
        let i = choose|i: int| first_clash(f, i);
        let j = choose|j: int|
            0 <= j < f.len() && j != i && is_prefix(f[i], #[trigger] f[j]);
        assert(f[i].len() == f[j].len());
        assert(f[j].take(f[i].len() as int) =~= f[j]);
        assert(occurs_twice(f, i));
        assert(first_clash(f, i) && occurs_twice(f, i));
    }
}

} // verus!
