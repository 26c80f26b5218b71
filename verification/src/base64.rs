//! Standard-alphabet base64, decode only.
//!
//! I2P's own base64 uses a different alphabet (`-` for `+`, `~` for `/`), so
//! it cannot read this and this cannot read it. The two are deliberately
//! separate. The input is a stranger's, so this allocates only what the
//! input's length implies and refuses non-canonical encodings instead of
//! guessing at them.
use vstd::prelude::*;
use vstd::arithmetic::power::pow;
#[allow(unused_imports)]
use vstd::string::*;

verus! {

/// Whether `b` is whitespace that is ignored anywhere in the input.
pub open spec fn is_blank(b: u8) -> bool {
    b == 32 || b == 9 || b == 13 || b == 10
}

/// The six-bit value of a symbol of the alphabet.
pub open spec fn symbol(b: u8) -> Option<u8> {
    if 65 <= b <= 90 {
        Some((b - 65) as u8)
    } else if 97 <= b <= 122 {
        Some((b - 97 + 26) as u8)
    } else if 48 <= b <= 57 {
        Some((b - 48 + 52) as u8)
    } else if b == 43 {
        Some(62)
    } else if b == 47 {
        Some(63)
    } else {
        None
    }
}

/// The input with its whitespace taken out.
pub open spec fn stripped(s: Seq<u8>) -> Seq<u8>
    decreases s.len(),
{
    if s.len() == 0 {
        Seq::empty()
    } else if is_blank(s.last()) {
        stripped(s.drop_last())
    } else {
        stripped(s.drop_last()).push(s.last())
    }
}

/// The values of a run of symbols.
pub open spec fn values(t: Seq<u8>) -> Seq<u8> {
    Seq::new(t.len(), |i: int| symbol(t[i])->Some_0)
}

/// Digits of base `base`, most significant first, as a number.
pub open spec fn number(digits: Seq<u8>, base: nat) -> nat
    decreases digits.len(),
{
    if digits.len() == 0 {
        0
    } else {
        number(digits.drop_last(), base) * base + digits.last() as nat
    }
}

/// How many bits `n` symbols leave beyond the last whole byte.
pub open spec fn spare_bits(n: nat) -> nat {
    (6 * n) as nat % 8
}

/// Whether `t`, without whitespace, is `n` symbols and then at most two `=`,
/// which complete the last group of four if there are any; whether the symbols
/// make up whole bytes; and whether the bits left over are zero.
pub open spec fn canonical(t: Seq<u8>, n: int) -> bool {
    &&& 0 <= n <= t.len() <= n + 2
    &&& forall|i: int| 0 <= i < n ==> symbol(#[trigger] t[i]) is Some
    &&& forall|i: int| n <= i < t.len() ==> #[trigger] t[i] == 61
    &&& n % 4 != 1
    &&& n < t.len() ==> t.len() % 4 == 0
    &&& number(values(t.take(n)), 64) % (pow(2, spare_bits(n as nat)) as nat) == 0
}

/// Whether `out` is what the symbols of `t` encode: the same number, but for
/// the spare zero bits.
pub open spec fn encodes(t: Seq<u8>, n: int, out: Seq<u8>) -> bool {
    &&& out.len() == (6 * n) / 8
    &&& number(out, 256) * (pow(2, spare_bits(n as nat)) as nat) == number(values(t.take(n)), 64)
}

proof fn lemma_pow2_small()
    ensures
        pow(2, 0) == 1,
        pow(2, 2) == 4,
        pow(2, 4) == 16,
        pow(2, 6) == 64,
{
    reveal(pow);
    reveal_with_fuel(pow, 7);
}

proof fn lemma_stripped_prefix(s: Seq<u8>, k: int)
    requires
        0 <= k <= s.len(),
    ensures
        stripped(s.take(k)).len() <= stripped(s).len(),
        forall|i: int|
            0 <= i < stripped(s.take(k)).len() ==> #[trigger] stripped(s)[i] == stripped(
                s.take(k),
            )[i],
    decreases s.len() - k,
{
    if k < s.len() {
        lemma_stripped_prefix(s, k + 1);
        assert(s.take(k + 1).drop_last() =~= s.take(k));
        let a = stripped(s.take(k));
        let b = stripped(s.take(k + 1));
        assert forall|i: int| 0 <= i < a.len() implies #[trigger] stripped(s)[i] == a[i] by {
            assert(b[i] == a[i]);
        }
    } else {
        assert(s.take(k) =~= s);
    }
}

/// Decode standard base64, returning `None` for anything malformed.
///
/// ASCII whitespace (space, tab, CR, LF) is ignored anywhere in the input.
/// Refused are characters outside the alphabet, `=` anywhere but at the end or
/// more than two of them, a symbol count that encodes no whole number of
/// bytes, padding that disagrees with the symbol count, and a final symbol
/// whose unused low bits are not zero.
pub fn decode(input: &str) -> (r: Option<Vec<u8>>)
    ensures
        match r {
            Some(out) => exists|n: int| #[trigger]
                canonical(stripped(input.spec_bytes()), n) && encodes(
                    stripped(input.spec_bytes()),
                    n,
                    out@,
                ),
            None => !exists|n: int| #[trigger] canonical(stripped(input.spec_bytes()), n),
        },
{
    let bytes = input.as_bytes();
    let ghost t = stripped(bytes@);
    let mut symbols: Vec<u8> = Vec::new();
    let mut padding: usize = 0;
    let mut i: usize = 0;
    proof {
        assert(bytes@.take(0) =~= Seq::empty());
    }
    while i < bytes.len()
        invariant
            i <= bytes.len(),
            t == stripped(bytes@),
            input.spec_bytes() == bytes@,
            stripped(bytes@.take(i as int)).len() == symbols.len() + padding,
            padding <= 2,
            symbols.len() <= i,
            forall|j: int|
                0 <= j < symbols.len() ==> symbol(
                    #[trigger] stripped(bytes@.take(i as int))[j],
                ) == Some(symbols@[j]),
            forall|j: int|
                symbols.len() <= j < symbols.len() + padding ==> #[trigger] stripped(
                    bytes@.take(i as int),
                )[j] == 61,
        decreases bytes.len() - i,
    {
        let b: u8 = bytes[i];
        let ghost had = stripped(bytes@.take(i as int));
        proof {
            assert(bytes@.take(i as int + 1).drop_last() =~= bytes@.take(i as int));
            lemma_stripped_prefix(bytes@, i as int + 1);
            if !is_blank(b) {
                assert(stripped(bytes@.take(i as int + 1)) == had.push(b));
                assert(t[had.len() as int] == b);
                assert forall|j: int| 0 <= j < had.len() implies #[trigger] t[j] == had[j] by {
                    assert(had.push(b)[j] == had[j]);
                }
            }
        }
        if b == 32 || b == 9 || b == 13 || b == 10 {
        } else if b == 61 {
            if padding == 2 {
                proof {
                    assert forall|n: int| !(#[trigger] canonical(t, n)) by {
                        if canonical(t, n) {
                            let k = symbols.len() as int;
                            assert(t[k] == had[k] && t[k + 1] == had[k + 1]);
                            if n > k {
                                assert(symbol(t[k]) is Some);
                            }
                        }
                    }
                }
                return None;
            }
            padding = padding + 1;
        } else {
            if padding > 0 {
                proof {
                    assert forall|n: int| !(#[trigger] canonical(t, n)) by {
                        if canonical(t, n) {
                            let k = symbols.len() as int;
                            assert(t[k] == had[k]);
                            if n > k {
                                assert(symbol(t[k]) is Some);
                            } else {
                                assert(t[had.len() as int] == 61);
                            }
                        }
                    }
                }
                return None;
            }
            match symbol_value(b) {
                Some(v) => {
                    symbols.push(v);
                },
                None => {
                    proof {
                        assert forall|n: int| !(#[trigger] canonical(t, n)) by {
                            if canonical(t, n) {
                                let k = had.len() as int;
                                if n > k {
                                    assert(symbol(t[k]) is Some);
                                } else {
                                    assert(t[k] == 61);
                                }
                            }
                        }
                    }
                    return None;
                },
            }
        }
        i = i + 1;
    }
    proof {
        assert(bytes@.take(i as int) =~= bytes@);
    }
    let ghost n = symbols.len() as int;
    proof {
        // Only the split found here can be the canonical one.
        assert forall|m: int| canonical(t, m) implies m == n by {
            if m < n {
                assert(t[m] == 61);
                assert(symbol(t[m]) is Some);
            } else if m > n {
                assert(symbol(t[n]) is Some);
                assert(t[n] == 61);
            }
        }
        assert(values(t.take(n)) =~= symbols@);
    }
    if symbols.len() % 4 == 1 {
        return None;
    }
    if padding > 0 && (symbols.len() % 4 + padding) % 4 != 0 {
        return None;
    }
    let mut out: Vec<u8> = Vec::new();
    let mut buffer: u32 = 0;
    let mut bits: u32 = 0;
    let mut k: usize = 0;
    proof {
        lemma_pow2_small();
        assert(symbols@.take(0) =~= Seq::empty());
    }
    while k < symbols.len()
        invariant
            k <= symbols.len(),
            forall|j: int| 0 <= j < symbols.len() ==> #[trigger] symbols@[j] < 64,
            bits == (6 * k) % 8,
            out.len() == (6 * k) / 8,
            bits == 0 || bits == 2 || bits == 4 || bits == 6,
            bits == 0 ==> buffer == 0 && number(out@, 256) == number(
                symbols@.take(k as int),
                64,
            ),
            bits == 2 ==> buffer < 4 && number(out@, 256) * 4 + buffer == number(
                symbols@.take(k as int),
                64,
            ),
            bits == 4 ==> buffer < 16 && number(out@, 256) * 16 + buffer == number(
                symbols@.take(k as int),
                64,
            ),
            bits == 6 ==> buffer < 64 && number(out@, 256) * 64 + buffer == number(
                symbols@.take(k as int),
                64,
            ),
        decreases symbols.len() - k,
    {
        let ghost before = out@;
        proof {
            assert(symbols@.take(k as int + 1).drop_last() =~= symbols@.take(k as int));
        }
        let value: u32 = symbols[k] as u32;
        buffer = buffer * 64 + value;
        if bits == 0 {
            bits = 6;
        } else if bits == 2 {
            out.push(buffer as u8);
            buffer = 0;
            bits = 0;
        } else if bits == 4 {
            out.push((buffer / 4) as u8);
            buffer = buffer % 4;
            bits = 2;
        } else {
            out.push((buffer / 16) as u8);
            buffer = buffer % 16;
            bits = 4;
        }
        proof {
            if out@.len() > before.len() {
                assert(out@.drop_last() =~= before);
            }
        }
        k = k + 1;
    }
    proof {
        assert(symbols@.take(k as int) =~= symbols@);
        lemma_pow2_small();
        let all = number(symbols@, 64);
        let got = number(out@, 256);
        let unit = pow(2, spare_bits(n as nat)) as nat;
        assert(spare_bits(n as nat) == bits);
        assert(unit == 1 || unit == 4 || unit == 16 || unit == 64);
        assert(all == got * unit + buffer && buffer < unit);
        if unit == 1 {
            assert(all % 1 == buffer);
        } else if unit == 4 {
            assert(all % 4 == buffer);
        } else if unit == 16 {
            assert(all % 16 == buffer);
        } else {
            assert(all % 64 == buffer);
        }
        assert(t.len() == n + padding);
    }
    if buffer != 0 {
        return None;
    }
    proof {
        assert(canonical(t, n));
    }
    Some(out)
}

/// The six-bit value of one base64 symbol, or `None` if it is not one.
fn symbol_value(c: u8) -> (r: Option<u8>)
    ensures
        r == symbol(c),
        r matches Some(v) ==> v < 64,
{
    if 65 <= c && c <= 90 {
        Some(c - 65)
    } else if 97 <= c && c <= 122 {
        Some(c - 97 + 26)
    } else if 48 <= c && c <= 57 {
        Some(c - 48 + 52)
    } else if c == 43 {
        Some(62)
    } else if c == 47 {
        Some(63)
    } else {
        None
    }
}


/// Digits in range are determined by how many they are and the number they
/// stand for.
pub proof fn lemma_number_injective(a: Seq<u8>, b: Seq<u8>, base: nat)
    requires
        a.len() == b.len(),
        base > 0,
        number(a, base) == number(b, base),
        forall|i: int| 0 <= i < a.len() ==> (#[trigger] a[i]) < base,
        forall|i: int| 0 <= i < b.len() ==> (#[trigger] b[i]) < base,
    ensures
        a == b,
    decreases a.len(),
{
    if a.len() > 0 {
        let x = number(a.drop_last(), base);
        let y = number(b.drop_last(), base);
        let p = a.last() as nat;
        let q = b.last() as nat;
        assert(p < base && q < base);
        assert(x == y && p == q) by (nonlinear_arith)
            requires
                x * base + p == y * base + q,
                p < base,
                q < base,
        ;
        lemma_number_injective(a.drop_last(), b.drop_last(), base);
        assert(a =~= a.drop_last().push(a.last()));
        assert(b =~= b.drop_last().push(b.last()));
    } else {
        assert(a =~= b);
    }
}

/// A symbol is determined by its value.
proof fn lemma_symbol_injective(x: u8, y: u8)
    requires
        symbol(x) is Some,
        symbol(x) == symbol(y),
    ensures
        x == y,
{
}

/// The symbols determine the bytes: no input decodes to two values.
pub proof fn law_decoding_is_a_function(t: Seq<u8>, n: int, m: int, x: Seq<u8>, y: Seq<u8>)
    requires
        canonical(t, n),
        canonical(t, m),
        encodes(t, n, x),
        encodes(t, m, y),
    ensures
        n == m,
        x == y,
{
    if m < n {
        assert(t[m] == 61);
        assert(symbol(t[m]) is Some);
    } else if n < m {
        assert(t[n] == 61);
        assert(symbol(t[n]) is Some);
    }
    let unit = pow(2, spare_bits(n as nat)) as nat;
    lemma_pow2_small();
    assert(unit == 1 || unit == 4 || unit == 16 || unit == 64);
    assert(number(x, 256) == number(y, 256)) by (nonlinear_arith)
        requires
            number(x, 256) * unit == number(y, 256) * unit,
            unit > 0,
    ;
    lemma_number_injective(x, y, 256);
}

/// Two inputs that decode to the same bytes have the same symbols: apart from
/// whitespace and padding, a value has one spelling.
pub proof fn law_one_spelling(t: Seq<u8>, n: int, u: Seq<u8>, m: int, out: Seq<u8>)
    requires
        canonical(t, n),
        canonical(u, m),
        encodes(t, n, out),
        encodes(u, m, out),
    ensures
        t.take(n) == u.take(m),
{
    assert(n == m);
    let a = values(t.take(n));
    let b = values(u.take(m));
    assert forall|i: int| 0 <= i < a.len() implies (#[trigger] a[i]) < 64 by {
        assert(symbol(t[i]) is Some);
    }
    assert forall|i: int| 0 <= i < b.len() implies (#[trigger] b[i]) < 64 by {
        assert(symbol(u[i]) is Some);
    }
    lemma_number_injective(a, b, 64);
    assert forall|i: int| 0 <= i < n implies t.take(n)[i] == u.take(m)[i] by {
        assert(a[i] == b[i]);
        assert(symbol(t[i]) is Some && symbol(u[i]) is Some);
        lemma_symbol_injective(t[i], u[i]);
    }
    assert(t.take(n) =~= u.take(m));
}

/// The alphabet: `A` to `Z` are 0 to 25, `a` to `z` 26 to 51, `0` to `9` 52 to
/// 61, `+` is 62 and `/` is 63, and nothing else is a symbol. Spaces, tabs and
/// line ends are passed over.
pub proof fn law_alphabet(b: u8)
    ensures
        symbol(b) == (if 65 <= b <= 90 {
            Some((b - 65) as u8)
        } else if 97 <= b <= 122 {
            Some((b - 71) as u8)
        } else if 48 <= b <= 57 {
            Some((b + 4) as u8)
        } else if b == 43 {
            Some(62u8)
        } else if b == 47 {
            Some(63u8)
        } else {
            None
        }),
        is_blank(b) <==> b == 32 || b == 9 || b == 13 || b == 10,
{
}

proof fn lemma_number_pushed(s: Seq<u8>, d: u8, base: nat)
    ensures
        number(s.push(d), base) == number(s, base) * base + d as nat,
{
    assert(s.push(d).drop_last() =~= s);
}

/// Four symbols are three bytes: the 24 bits of one are those of the other,
/// most significant first, and so on for what stands before them.
pub proof fn law_groups_of_four(t: Seq<u8>, n: int, out: Seq<u8>)
    requires
        canonical(t, n),
        encodes(t, n, out),
        n >= 4,
        n % 4 == 0,
    ensures
        ({
            let six = |i: int| symbol(t[i])->Some_0;
            let m = out.len();
            &&& (out[m - 3] * 256 + out[m - 2]) * 256 + out[m - 1] == ((six(n - 4) * 64 + six(
                n - 3,
            )) * 64 + six(n - 2)) * 64 + six(n - 1)
            &&& number(out.take(m - 3), 256) == number(values(t.take(n - 4)), 64)
        }),
{
    let vals = values(t.take(n));
    let m = out.len() as int;
    let k = n / 4;
    assert(n == 4 * k);
    assert(m == 3 * k);
    lemma_pow2_small();
    assert(spare_bits(n as nat) == 0);
    let v = values(t.take(n - 4));
    assert(vals =~= v.push(vals[n - 4]).push(vals[n - 3]).push(vals[n - 2]).push(vals[n - 1]));
    let o = out.take(m - 3);
    assert(out =~= o.push(out[m - 3]).push(out[m - 2]).push(out[m - 1]));
    lemma_number_pushed(v, vals[n - 4], 64);
    lemma_number_pushed(v.push(vals[n - 4]), vals[n - 3], 64);
    lemma_number_pushed(v.push(vals[n - 4]).push(vals[n - 3]), vals[n - 2], 64);
    lemma_number_pushed(
        v.push(vals[n - 4]).push(vals[n - 3]).push(vals[n - 2]),
        vals[n - 1],
        64,
    );
    lemma_number_pushed(o, out[m - 3], 256);
    lemma_number_pushed(o.push(out[m - 3]), out[m - 2], 256);
    lemma_number_pushed(o.push(out[m - 3]).push(out[m - 2]), out[m - 1], 256);
    assert(symbol(t[n - 4]) is Some && symbol(t[n - 3]) is Some && symbol(t[n - 2]) is Some
        && symbol(t[n - 1]) is Some);
    let a = number(o, 256);
    let b = number(v, 64);
    let x = (out[m - 3] * 256 + out[m - 2]) * 256 + out[m - 1];
    let y = ((vals[n - 4] * 64 + vals[n - 3]) * 64 + vals[n - 2]) * 64 + vals[n - 1];
    assert(number(out, 256) == a * 0x100_0000 + x);
    assert(number(vals, 64) == b * 0x100_0000 + y);
    assert(number(out, 256) * 1 == number(vals, 64));
    assert(a == b && x == y) by (nonlinear_arith)
        requires
            a * 0x100_0000 + x == b * 0x100_0000 + y,
            0 <= x < 0x100_0000,
            0 <= y < 0x100_0000,
    ;
}

/// At the end two symbols are one byte, and three are two bytes, with zeros in
/// the bits left over.
pub proof fn law_last_group(t: Seq<u8>, n: int, out: Seq<u8>)
    requires
        canonical(t, n),
        encodes(t, n, out),
    ensures
        ({
            let six = |i: int| symbol(t[i])->Some_0;
            let m = out.len();
            &&& n % 4 == 2 ==> out[m - 1] * 16 == six(n - 2) * 64 + six(n - 1) && number(
                out.take(m - 1),
                256,
            ) == number(values(t.take(n - 2)), 64)
            &&& n % 4 == 3 ==> (out[m - 2] * 256 + out[m - 1]) * 4 == (six(n - 3) * 64 + six(n - 2))
                * 64 + six(n - 1) && number(out.take(m - 2), 256) == number(
                values(t.take(n - 3)),
                64,
            )
        }),
{
    let vals = values(t.take(n));
    let m = out.len() as int;
    let k = n / 4;
    lemma_pow2_small();
    if n % 4 == 2 {
        assert(n == 4 * k + 2);
        assert(m == 3 * k + 1);
        assert(spare_bits(n as nat) == 4);
        let v = values(t.take(n - 2));
        assert(vals =~= v.push(vals[n - 2]).push(vals[n - 1]));
        let o = out.take(m - 1);
        assert(out =~= o.push(out[m - 1]));
        lemma_number_pushed(v, vals[n - 2], 64);
        lemma_number_pushed(v.push(vals[n - 2]), vals[n - 1], 64);
        lemma_number_pushed(o, out[m - 1], 256);
        assert(symbol(t[n - 2]) is Some && symbol(t[n - 1]) is Some);
        let a = number(o, 256);
        let b = number(v, 64);
        let x = out[m - 1] * 16;
        let y = vals[n - 2] * 64 + vals[n - 1];
        assert(number(out, 256) * 16 == a * 4096 + x);
        assert(number(vals, 64) == b * 4096 + y);
        assert(a == b && x == y) by (nonlinear_arith)
            requires
                a * 4096 + x == b * 4096 + y,
                0 <= x < 4096,
                0 <= y < 4096,
        ;
    } else if n % 4 == 3 {
        assert(n == 4 * k + 3);
        assert(m == 3 * k + 2);
        assert(spare_bits(n as nat) == 2);
        let v = values(t.take(n - 3));
        assert(vals =~= v.push(vals[n - 3]).push(vals[n - 2]).push(vals[n - 1]));
        let o = out.take(m - 2);
        assert(out =~= o.push(out[m - 2]).push(out[m - 1]));
        lemma_number_pushed(v, vals[n - 3], 64);
        lemma_number_pushed(v.push(vals[n - 3]), vals[n - 2], 64);
        lemma_number_pushed(v.push(vals[n - 3]).push(vals[n - 2]), vals[n - 1], 64);
        lemma_number_pushed(o, out[m - 2], 256);
        lemma_number_pushed(o.push(out[m - 2]), out[m - 1], 256);
        assert(symbol(t[n - 3]) is Some && symbol(t[n - 2]) is Some && symbol(t[n - 1]) is Some);
        let a = number(o, 256);
        let b = number(v, 64);
        let x = (out[m - 2] * 256 + out[m - 1]) * 4;
        let y = (vals[n - 3] * 64 + vals[n - 2]) * 64 + vals[n - 1];
        assert(number(out, 256) * 4 == a * 0x4_0000 + x);
        assert(number(vals, 64) == b * 0x4_0000 + y);
        assert(a == b && x == y) by (nonlinear_arith)
            requires
                a * 0x4_0000 + x == b * 0x4_0000 + y,
                0 <= x < 0x4_0000,
                0 <= y < 0x4_0000,
        ;
    }
}

/// What may be decoded: symbols, at the end of which at most two `=` may stand
/// to make whole groups of four. One symbol over a group is no byte; two and
/// three must leave zeros.
pub proof fn law_what_may_be_decoded(t: Seq<u8>, n: int)
    ensures
        canonical(t, n) ==> {
            &&& 0 <= n <= t.len() <= n + 2
            &&& forall|i: int| n <= i < t.len() ==> #[trigger] t[i] == 61
            &&& forall|i: int| 0 <= i < n ==> #[trigger] t[i] != 61
            &&& t.len() > n ==> t.len() % 4 == 0
            &&& n % 4 != 1
        },
        0 <= n == t.len() && n % 4 == 0 && (forall|i: int|
            0 <= i < n ==> symbol(#[trigger] t[i]) is Some) ==> canonical(t, n),
{
    lemma_pow2_small();
    if canonical(t, n) {
        assert forall|i: int| 0 <= i < n implies #[trigger] t[i] != 61 by {
            assert(symbol(t[i]) is Some);
        }
    }
    if n == t.len() && n % 4 == 0 {
        assert(spare_bits(n as nat) == 0);
        assert(number(values(t.take(n)), 64) % 1 == 0);
    }
}

} // verus!
