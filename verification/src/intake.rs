//! What a torrent file must be to be taken in, and what it is refused for.
use vstd::prelude::*;
#[allow(unused_imports)]
use vstd::string::*;
#[allow(unused_imports)]
use vstd::utf8::*;
use crate::bencode::{decoded, Tree};
use crate::metainfo::{
    authority_end, escapes_complete, file_in, file_list, file_priority, file_start, files_in,
    folded_paths, hex_text, host_of, is_i2p_host, last_index, lemma_last_index, lemma_path_parts,
    meta_in, name_in, no_ctl, overlaps, path_bytes, piece_length_in, pieces_in, tier_in,
    tiers_in, trackers_in, url_parts, Error, FileSpec, Meta, UrlParts,
};
use crate::paths::{folded_path, law_accepted_paths_are_disjoint};
use crate::scan::{
    find, lemma_find_char, lemma_found_char, lemma_split_joined, lemma_split_whole, lowered_text,
    split, starts,
};

verus! {

// ---------------------------------------------------------------------------
// Where files go.

proof fn lemma_files_safe(list: Seq<Tree>, n: int, name: Seq<char>, i: int)
    requires
        0 <= i < n <= list.len(),
    ensures
        files_in(list, n, name) matches Ok((files, total)) ==> {
            &&& files.len() == n
            &&& file_in(list[i], name) == Ok::<FileSpec, Error>(files[i])
        },
    decreases n,
{
    if files_in(list, n, name) is Ok {
        if i < n - 1 {
            lemma_files_safe(list, n - 1, name, i);
        } else if n > 1 {
            lemma_files_safe(list, n - 1, name, 0);
        }
    }
}

/// No part of a path of an accepted torrent leads out of the directory or names
/// two: none is empty, `.` or `..`, holds a slash, a backslash or a NUL, or is
/// longer than 255 bytes. No path is more than 4096 bytes long.
pub proof fn law_accepted_paths_are_safe(s: Seq<u8>, m: Meta, i: int, k: int)
    requires
        meta_in(s) == Ok::<Meta, Error>(m),
        0 <= i < m.files.len(),
        0 <= k < m.files[i].path.len(),
    ensures
        ({
            let c = m.files[i].path[k];
            &&& c.len() > 0
            &&& c != "."@
            &&& c != ".."@
            &&& !c.contains('/')
            &&& !c.contains('\\')
            &&& !c.contains('\0')
            &&& encode_utf8(c).len() <= 255
        }),
        path_bytes(m.files[i].path, m.files[i].path.len() as int) <= 4096,
{
    let info = decoded(s)->Ok_0.get("info".spec_bytes())->Some_0;
    assert(name_in(info) == Ok::<Seq<char>, Error>(m.name));
    assert(file_list(info, m.name) is Ok && file_list(info, m.name)->Ok_0.0 == m.files);
    match (info.get("length".spec_bytes()), info.get("files".spec_bytes())) {
        (None, Some(Tree::List(list))) => {
            lemma_files_len(list, list.len() as int, m.name);
            lemma_files_safe(list, list.len() as int, m.name, i);
            if let Some(Tree::List(raw)) = list[i].get("path".spec_bytes()) {
                lemma_path_parts(raw, raw.len() as int, m.name);
                if k > 0 {
                    assert(raw[k - 1] is Bytes);
                }
            }
        },
        _ => {
            reveal_with_fuel(path_bytes, 2);
        },
    }
}

proof fn lemma_files_len(list: Seq<Tree>, n: int, name: Seq<char>)
    requires
        0 <= n <= list.len(),
    ensures
        files_in(list, n, name) matches Ok((files, total)) ==> files.len() == n,
    decreases n,
{
    if n > 0 {
        lemma_files_len(list, n - 1, name);
    }
}

/// The length of a path is that of its parts, each with a separator.
pub proof fn law_path_length(p: Seq<Seq<char>>, n: int)
    requires
        0 <= n < p.len(),
    ensures
        path_bytes(p, 0) == 0,
        path_bytes(p, n + 1) == path_bytes(p, n) + encode_utf8(p[n]).len() + 1,
{
}

/// No file of an accepted torrent has the path of another, nor a path that
/// another's goes through, whatever the case of their letters.
pub proof fn law_accepted_files_do_not_collide(s: Seq<u8>, m: Meta, i: int, j: int)
    requires
        meta_in(s) == Ok::<Meta, Error>(m),
        0 <= i < m.files.len(),
        0 <= j < m.files.len(),
        i != j,
    ensures
        ({
            let a = folded_path(m.files[i].path);
            let b = folded_path(m.files[j].path);
            a.len() > b.len() || b.take(a.len() as int) != a
        }),
{
    let info = decoded(s)->Ok_0.get("info".spec_bytes())->Some_0;
    match (info.get("length".spec_bytes()), info.get("files".spec_bytes())) {
        (None, Some(Tree::List(list))) => {
            lemma_files_len(list, list.len() as int, m.name);
            let f = folded_paths(m.files);
            law_accepted_paths_are_disjoint(f);
            assert(!crate::paths::is_prefix(f[i], f[j]));
        },
        _ => {},
    }
}

// ---------------------------------------------------------------------------
// What is refused.

/// What a file is refused for, before its pieces are looked at: for not being
/// bencoded, for having no `info` dictionary, for a name or a piece length that
/// is missing or not to be used, and for hashes that are not whole.
pub proof fn law_refused_torrents(s: Seq<u8>)
    ensures
        ({
            let r = meta_in(s);
            let root = decoded(s)->Ok_0;
            let info = root.get("info".spec_bytes())->Some_0;
            let name = info.get("name".spec_bytes());
            let text = decode_utf8(name->Some_0->Bytes_0);
            let length = info.get("piece length".spec_bytes());
            let pieces = info.get("pieces".spec_bytes());
            let hashes = pieces->Some_0->Bytes_0;
            let found = decoded(s) is Ok && root.get("info".spec_bytes()) is Some && info is Dict;
            let named = found && (name is Some && name->Some_0 is Bytes && valid_utf8(
                name->Some_0->Bytes_0,
            ));
            let usable = text.len() > 0 && text != "."@ && text != ".."@ && !text.contains('/')
                && !text.contains('\\') && !text.contains('\0');
            let good = named && usable && encode_utf8(text).len() <= 255;
            let cut = good && length is Some && length->Some_0 is Int && 16384
                <= length->Some_0->Int_0 <= 134_217_728;
            &&& decoded(s) matches Err(e) ==> r == Err::<Meta, Error>(Error::Bencode(e))
            &&& decoded(s) is Ok && root.get("info".spec_bytes()) is None ==> r == Err::<
                Meta,
                Error,
            >(Error::Invalid("missing info dictionary"))
            &&& decoded(s) is Ok && root.get("info".spec_bytes()) is Some && !(info is Dict) ==> r
                == Err::<Meta, Error>(Error::Invalid("info is not a dictionary"))
            &&& found && !named ==> r == Err::<Meta, Error>(
                Error::Invalid("missing or non-UTF-8 name"),
            )
            &&& named && !usable ==> r == Err::<Meta, Error>(Error::Invalid("unsafe path component"))
            &&& named && usable && !good ==> r == Err::<Meta, Error>(
                Error::Invalid("path component longer than a filename can be"),
            )
            &&& good && !(length is Some && length->Some_0 is Int) ==> r == Err::<Meta, Error>(
                Error::Invalid("missing piece length"),
            )
            &&& good && length is Some && length->Some_0 is Int && !cut ==> r == Err::<Meta, Error>(
                Error::Invalid("piece length out of accepted range"),
            )
            &&& cut && !(pieces is Some && pieces->Some_0 is Bytes) ==> r == Err::<Meta, Error>(
                Error::Invalid("missing pieces"),
            )
            &&& cut && pieces is Some && pieces->Some_0 is Bytes && (hashes.len() == 0
                || hashes.len() % 20 != 0) ==> r == Err::<Meta, Error>(
                Error::Invalid("pieces is not a multiple of 20 bytes"),
            )
        }),
{
}

/// What the list of files is refused for: for being there in both forms or in
/// neither, for a length that is none, for having no byte, no file or more than
/// a hundred thousand.
pub proof fn law_refused_file_lists(info: Tree, name: Seq<char>)
    ensures
        ({
            let r = file_list(info, name);
            let length = info.get("length".spec_bytes());
            let files = info.get("files".spec_bytes());
            let bad = |what: &'static str|
                r == Err::<(Seq<FileSpec>, nat), Error>(Error::Invalid(what));
            &&& length is Some && files is Some ==> bad("both length and files present")
            &&& length is None && files is None ==> bad("neither length nor files present")
            &&& length is Some && files is None && !(length->Some_0 is Int && length->Some_0->Int_0
                >= 0) ==> bad("bad file length")
            &&& length == Some(Tree::Int(0)) && files is None ==> bad(
                "single-file torrent of zero bytes",
            )
            &&& length is None && files is Some && !(files->Some_0 is List) ==> bad(
                "files is not a list",
            )
            &&& length is None && files is Some && files->Some_0 is List
                && files->Some_0->List_0.len() == 0 ==> bad("files list is empty")
            &&& length is None && files is Some && files->Some_0 is List
                && files->Some_0->List_0.len() > 100_000 ==> bad("too many files")
        }),
{
}

/// A torrent is refused if its hashes are not as many as its pieces.
pub proof fn law_hashes_must_cover_the_torrent(s: Seq<u8>, files: Seq<FileSpec>, total: nat, k: int)
    requires
        decoded(s) is Ok,
        decoded(s)->Ok_0.get("info".spec_bytes()) is Some,
        ({
            let info = decoded(s)->Ok_0.get("info".spec_bytes())->Some_0;
            &&& info is Dict
            &&& name_in(info) is Ok
            &&& piece_length_in(info) is Ok
            &&& pieces_in(info) is Ok
            &&& file_list(info, name_in(info)->Ok_0) == Ok::<(Seq<FileSpec>, nat), Error>(
                (files, total),
            )
            &&& piece_length_in(info)->Ok_0 > 0
            &&& (k - 1) * piece_length_in(info)->Ok_0 < total <= k * piece_length_in(info)->Ok_0
        }),
    ensures
        ({
            let info = decoded(s)->Ok_0.get("info".spec_bytes())->Some_0;
            &&& k > 8_388_600 ==> meta_in(s) == Err::<Meta, Error>(
                Error::Invalid("more pieces than a bitfield message can carry"),
            )
            &&& k <= 8_388_600 && k != pieces_in(info)->Ok_0.len() ==> meta_in(s) == Err::<
                Meta,
                Error,
            >(Error::Invalid("piece count disagrees with total length"))
        }),
{
    let info = decoded(s)->Ok_0.get("info".spec_bytes())->Some_0;
    let d = piece_length_in(info)->Ok_0 as int;
    let x = total + d - 1;
    vstd::arithmetic::div_mod::lemma_fundamental_div_mod(x, d);
    let q = x / d;
    let r = x % d;
    assert(q == k) by (nonlinear_arith)
        requires
            x == d * q + r,
            0 <= r < d,
            (k - 1) * d < x - d + 1 <= k * d,
    ;
}

// ---------------------------------------------------------------------------
// Trackers.

/// An announce list is tier by tier what is kept of each; a tier of which
/// nothing is kept is left out.
pub proof fn law_tiers_are_kept_in_order(list: Seq<Tree>, n: int)
    requires
        0 <= n < list.len(),
        tiers_in(list, n) is Ok,
    ensures
        tiers_in(list, 0) == Ok::<(Seq<Seq<Seq<char>>>, nat, usize), Error>(
            (Seq::empty(), 0, 0),
        ),
        ({
            let (tiers, kept, skipped) = tiers_in(list, n)->Ok_0;
            let next = tiers_in(list, n + 1);
            match list[n] {
                Tree::List(tier) => match tier_in(tier, tier.len() as int, kept, skipped) {
                    Ok((urls, k, x)) => next is Ok && next->Ok_0.1 == k && next->Ok_0.2 == x
                        && next->Ok_0.0 == (if urls.len() == 0 {
                        tiers
                    } else {
                        tiers.push(urls)
                    }),
                    Err(e) => next is Err,
                },
                _ => next is Err,
            }
        }),
{
}

/// Of a tier each URL that is an I2P tracker is kept, in its place, while fewer
/// than sixteen are; any other is counted as skipped.
pub proof fn law_tracker_is_kept_or_counted(tier: Seq<Tree>, n: int, kept: nat, skipped: usize)
    requires
        0 <= n < tier.len(),
        tier_in(tier, n, kept, skipped) is Ok,
    ensures
        tier_in(tier, 0, kept, skipped) == Ok::<(Seq<Seq<char>>, nat, usize), Error>(
            (Seq::empty(), kept, skipped),
        ),
        ({
            let (urls, k, x) = tier_in(tier, n, kept, skipped)->Ok_0;
            let next = tier_in(tier, n + 1, kept, skipped);
            match tier[n] {
                Tree::Bytes(b) => if !valid_utf8(b) {
                    next is Err
                } else if url_parts(decode_utf8(b)) is Some && k < 16 {
                    next == Ok::<(Seq<Seq<char>>, nat, usize), Error>(
                        (urls.push(decode_utf8(b)), k + 1, x),
                    )
                } else {
                    &&& next is Ok
                    &&& next->Ok_0.0 == urls
                    &&& next->Ok_0.1 == k
                    &&& x < usize::MAX ==> next->Ok_0.2 == x + 1
                },
                _ => next is Err,
            }
        }),
{
}

/// A torrent without an announce list keeps its announce URL, if it is an I2P
/// tracker, and has none otherwise.
pub proof fn law_single_tracker(root: Tree, b: Seq<u8>)
    requires
        root.get("announce-list".spec_bytes()) is None,
    ensures
        root.get("announce".spec_bytes()) is None ==> trackers_in(root) == Ok::<
            (Seq<Seq<Seq<char>>>, usize),
            Error,
        >((Seq::empty(), 0)),
        root.get("announce".spec_bytes()) == Some(Tree::Bytes(b)) && valid_utf8(b) ==> trackers_in(
            root,
        ) == Ok::<(Seq<Seq<Seq<char>>>, usize), Error>(
            if url_parts(decode_utf8(b)) is Some {
                (seq![seq![decode_utf8(b)]], 0usize)
            } else {
                (Seq::empty(), 1usize)
            },
        ),
{
}

/// An I2P host is two labels or more, none of them empty, the last of them
/// `i2p`.
pub proof fn law_i2p_hosts(label: Seq<char>, rest: Seq<char>, other: Seq<char>)
    requires
        !label.contains('.'),
        label.len() > 0,
    ensures
        is_i2p_host(label + seq!['.'] + "i2p"@),
        is_i2p_host(rest) ==> is_i2p_host(label + seq!['.'] + rest),
        !is_i2p_host(label),
        !is_i2p_host(seq!['.'] + rest),
        is_i2p_host(other) ==> other.len() >= 5 && other.skip(other.len() - 4) == ".i2p"@,
{
    reveal_strlit(".");
    reveal_strlit("i2p");
    reveal_strlit(".i2p");
    assert("."@ =~= seq!['.']);
    lemma_split_whole(label, '.');
    lemma_split_whole("i2p"@, '.');
    lemma_split_joined(label, '.', "i2p"@);
    lemma_split_joined(label, '.', rest);
    let none = Seq::<char>::empty();
    lemma_split_whole(none, '.');
    lemma_split_joined(none, '.', rest);
    assert(none + seq!['.'] + rest =~= seq!['.'] + rest);
    let a = split(seq!['.'] + rest, "."@);
    assert(a[0] == none);
    if is_i2p_host(rest) {
        let v = split(rest, "."@);
        let w = split(label + seq!['.'] + rest, "."@);
        assert(w =~= seq![label] + v);
        assert forall|i: int| 0 <= i < w.len() implies (#[trigger] w[i]).len() > 0 by {
            if i > 0 {
                assert(w[i] == v[i - 1]);
            }
        }
    }
    if is_i2p_host(other) {
        lemma_last_part(other);
        let v = split(other, "."@);
        assert(v[0].len() > 0);
        let tail = "."@ + "i2p"@;
        assert(tail =~= ".i2p"@);
        assert(other.skip(other.len() - 4) =~= ".i2p"@) by {
            let last = v.last();
            assert(other.skip(other.len() - 3) == last);
            assert(other[other.len() - 4] == '.');
            assert forall|i: int| 0 <= i < 4 implies other.skip(other.len() - 4)[i]
                == ".i2p"@[i] by {
                if i > 0 {
                    assert(other.skip(other.len() - 3)[i - 1] == other[other.len() - 4 + i]);
                }
            }
        }
    }
}

proof fn lemma_last_part(s: Seq<char>)
    ensures
        ({
            let v = split(s, "."@);
            &&& v.len() >= 1
            &&& v.last().len() <= s.len()
            &&& s.skip(s.len() - v.last().len()) == v.last()
            &&& v.len() >= 2 ==> v.last().len() + 1 + v[0].len() <= s.len() && s[s.len()
                - v.last().len() - 1] == '.'
        }),
    decreases s.len(),
{
    reveal_strlit(".");
    assert("."@ =~= seq!['.']);
    lemma_find_char(s, '.');
    let i = find(s, seq!['.'], 0);
    let v = split(s, "."@);
    if i < s.len() {
        let rest = s.skip(i + 1);
        lemma_last_part(rest);
        let w = split(rest, "."@);
        assert(v =~= seq![s.take(i)] + w);
        let n = w.last().len() as int;
        assert(v.last() == w.last());
        assert(s.skip(s.len() - n) =~= rest.skip(rest.len() - n));
        if w.len() >= 2 {
            assert(rest[rest.len() - n - 1] == s[s.len() - n - 1]);
        } else {
            assert(w[0] == w.last());
            assert(rest.skip(rest.len() - n) == w[0]);
            lemma_split_single(rest);
        }
    } else {
        assert(v =~= seq![s]);
        assert(s.skip(0) =~= s);
    }
}

proof fn lemma_split_single(s: Seq<char>)
    ensures
        split(s, "."@).len() == 1 ==> split(s, "."@)[0] == s,
    decreases s.len(),
{
    reveal_strlit(".");
    assert("."@ =~= seq!['.']);
    lemma_find_char(s, '.');
    let i = find(s, seq!['.'], 0);
    if i < s.len() {
        lemma_last_part(s.skip(i + 1));
    }
}

/// A URL is accepted if it is `http://`, a host of I2P, and a path or a query;
/// and it is taken apart as it is written, but for the case of the host.
pub proof fn law_i2p_url_is_accepted(host: Seq<char>, path: Seq<char>)
    requires
        is_i2p_host(lowered_text(host)),
        forall|i: int|
            0 <= i < host.len() ==> #[trigger] host[i] != '/' && host[i] != '?' && host[i] != '@'
                && host[i] != ':' && host[i] != '#' && host[i] != '%',
        !path.contains('#'),
        path.len() > 0 ==> path[0] == '/' || path[0] == '?',
        no_ctl(host),
        no_ctl(path),
        escapes_complete(path),
    ensures
        url_parts("http://"@ + host + path) == Some(
            UrlParts {
                host: lowered_text(host),
                authority: host,
                path_and_query: if path.len() > 0 && path[0] == '/' {
                    path
                } else {
                    "/"@ + path
                },
            },
        ),
        !starts(path, "http://"@) ==> url_parts(path) is None,
{
    reveal_strlit("http://");
    reveal_strlit("/");
    reveal_strlit("?");
    assert("/"@ =~= seq!['/']);
    assert("?"@ =~= seq!['?']);
    let url = "http://"@ + host + path;
    let rest = host + path;
    assert(url.skip(7) =~= rest);
    assert(url.take(7) =~= "http://"@);
    let n = host.len() as int;
    lemma_find_char(rest, '/');
    lemma_find_char(rest, '?');
    let i = find(rest, "/"@, 0);
    let j = find(rest, "?"@, 0);
    assert forall|k: int| 0 <= k < n implies #[trigger] rest[k] == host[k] by {}
    if i < n {
        assert(rest[i] == host[i]);
    }
    if j < n {
        assert(rest[j] == host[j]);
    }
    if path.len() > 0 {
        assert(rest[n] == path[0]);
        if path[0] == '/' {
            lemma_found_char(rest, '/', n);
        } else {
            lemma_found_char(rest, '?', n);
        }
    }
    assert(authority_end(rest) == n);
    assert(rest.take(n) =~= host);
    assert(rest.skip(n) =~= path);
    assert forall|k: int| 0 <= k < rest.len() implies !crate::metainfo::is_ctl(
        #[trigger] rest[k],
    ) && rest[k] != '#' by {
        if k < n {
            assert(rest[k] == host[k]);
        } else {
            assert(rest[k] == path[k - n]);
            assert(path.contains(path[k - n]));
        }
    }
    assert forall|k: int| 0 <= k < rest.len() && #[trigger] rest[k] == '%' implies k + 2
        < rest.len() && crate::metainfo::is_hex(rest[k + 1]) && crate::metainfo::is_hex(
        rest[k + 2],
    ) by {
        if k < n {
            assert(rest[k] == host[k]);
        } else {
            assert(path[k - n] == '%');
            assert(rest[k + 1] == path[k - n + 1]);
            assert(rest[k + 2] == path[k - n + 2]);
        }
    }
    lemma_last_index(host, ':', n);
    let c = last_index(host, ':', n);
    if c >= 0 {
        assert(host[c] != ':');
    }
    assert(host_of(host) == Some(host));
}

// ---------------------------------------------------------------------------
// Files and pieces.

/// A file has bytes in a piece if and only if some byte of the torrent lies in
/// both.
pub proof fn law_file_overlaps_piece(files: Seq<FileSpec>, i: int, p: int, piece_length: u32)
    requires
        0 <= i < files.len(),
        piece_length > 0,
        0 <= p,
        file_start(files, i) + files[i].length <= u64::MAX,
    ensures
        overlaps(files, i, p, piece_length) <==> files[i].length > 0 && file_start(files, i) < (p
            + 1) * piece_length && p * piece_length < file_start(files, i) + files[i].length,
        file_start(files, 0) == 0,
        file_start(files, i + 1) == file_start(files, i) + files[i].length,
{
    let a = file_start(files, i) as int;
    let b = file_start(files, i + 1) as int;
    let d = piece_length as int;
    vstd::arithmetic::div_mod::lemma_fundamental_div_mod(a, d);
    vstd::arithmetic::div_mod::lemma_fundamental_div_mod(b - 1, d);
    let q = a / d;
    let r = a % d;
    assert(q <= p <==> a < (p + 1) * d) by (nonlinear_arith)
        requires
            a == d * q + r,
            0 <= r < d,
    ;
    let x = (b - 1) / d;
    let y = (b - 1) % d;
    assert(p <= x <==> p * d < b) by (nonlinear_arith)
        requires
            b - 1 == d * x + y,
            0 <= y < d,
    ;
}

/// A file without a priority of its own has the normal one.
pub proof fn law_files_have_a_priority(per_file: Seq<u8>, i: int)
    requires
        0 <= i,
    ensures
        file_priority(per_file, i) == (if i < per_file.len() {
            per_file[i]
        } else {
            1
        }),
{
}

/// A hash is shown as two digits for each byte, in lower case, the first digit
/// worth sixteen times as much.
pub proof fn law_hash_text(s: Seq<u8>, i: int)
    requires
        0 <= i < s.len(),
    ensures
        ({
            let digit = |c: char|
                if c <= '9' {
                    c as u32 - 48
                } else {
                    c as u32 - 87
                };
            let a = hex_text(s)[2 * i];
            let b = hex_text(s)[2 * i + 1];
            &&& hex_text(s).len() == 2 * s.len()
            &&& '0' <= a <= '9' || 'a' <= a <= 'f'
            &&& '0' <= b <= '9' || 'a' <= b <= 'f'
            &&& s[i] == digit(a) * 16 + digit(b)
        }),
{
    assert((2 * i) / 2 == i);
    assert((2 * i + 1) / 2 == i);
    assert((2 * i) % 2 == 0);
    assert((2 * i + 1) % 2 == 1);
}

} // verus!
