//! Whether a decimal literal is too large for double precision.
//!
//! Decided on the digits, exactly: a literal is out of range if and only if its
//! value is at least the least number that rounds to infinity.
use vstd::prelude::*;
use crate::scan::{all_digits, dec_value};
use crate::strings::chars_of;

verus! {

/// The least number that double precision rounds to infinity, half a step past
/// the largest it holds: 2^1024 - 2^970.
pub const LEAST_INFINITE: &'static str = "179769313486231580793728971405303415079934132710037826936173778980444968292764750946649017977587207096330286416692887910946555547851940402630657488671505820681908902000708383676273854845817711531764475730270069855571366959622842914819860834936475292719074168444365510704342711559699508093042880177904174497792";

/// A power of ten.
pub open spec fn ten_to(n: nat) -> nat
    decreases n,
{
    if n == 0 {
        1
    } else {
        10 * ten_to((n - 1) as nat)
    }
}

/// Whether the number with these digits, `scale` places to the left, is at
/// least `limit`.
pub open spec fn at_least(digits: Seq<char>, scale: int, limit: nat) -> bool {
    if scale >= 0 {
        dec_value(digits) * ten_to(scale as nat) >= limit
    } else {
        dec_value(digits) >= limit * ten_to((-scale) as nat)
    }
}

/// Whether a literal rounds to infinity: its digits, how many of them follow
/// the point, and its exponent.
pub open spec fn out_of_range(
    digits: Seq<char>,
    fraction: nat,
    exponent: Seq<char>,
    negative: bool,
) -> bool {
    let x = if negative {
        -dec_value(exponent)
    } else {
        dec_value(exponent) as int
    };
    at_least(digits, x - fraction, dec_value(LEAST_INFINITE@))
}

proof fn lemma_ten_sum(a: nat, b: nat)
    ensures
        ten_to(a + b) == ten_to(a) * ten_to(b),
    decreases a,
{
    if a == 0 {
        assert(ten_to(0) == 1);
        assert(1 * ten_to(b) == ten_to(b));
    } else {
        lemma_ten_sum((a - 1) as nat, b);
        let p = ten_to((a - 1) as nat);
        let q = ten_to(b);
        assert((10 * p) * q == 10 * (p * q)) by (nonlinear_arith);
        assert((a + b - 1) as nat == (a - 1) as nat + b);
    }
}

proof fn lemma_ten_positive(n: nat)
    ensures
        ten_to(n) > 0,
    decreases n,
{
    if n > 0 {
        lemma_ten_positive((n - 1) as nat);
    }
}

proof fn lemma_ten_monotone(a: nat, b: nat)
    requires
        a <= b,
    ensures
        ten_to(a) <= ten_to(b),
    decreases b - a,
{
    if a < b {
        lemma_ten_monotone(a, (b - 1) as nat);
        lemma_ten_positive((b - 1) as nat);
    }
}

proof fn lemma_dec_concat(a: Seq<char>, b: Seq<char>)
    ensures
        dec_value(a + b) == dec_value(a) * ten_to(b.len()) + dec_value(b),
    decreases b.len(),
{
    if b.len() == 0 {
        assert(a + b =~= a);
        assert(dec_value(a) * 1 == dec_value(a));
    } else {
        let c = b.drop_last();
        lemma_dec_concat(a, c);
        assert((a + b).drop_last() =~= a + c);
        assert((a + b).last() == b.last());
        let p = dec_value(a);
        let q = ten_to(c.len());
        assert(p * (10 * q) == (p * q) * 10) by (nonlinear_arith);
    }
}

proof fn lemma_dec_bounds(s: Seq<char>)
    requires
        all_digits(s),
    ensures
        dec_value(s) < ten_to(s.len()),
        s.len() > 0 && s[0] != '0' ==> dec_value(s) >= ten_to((s.len() - 1) as nat),
    decreases s.len(),
{
    if s.len() > 0 {
        let r = s.drop_last();
        assert forall|i: int| 0 <= i < r.len() implies '0' <= #[trigger] r[i] <= '9' by {
            assert(r[i] == s[i]);
        }
        lemma_dec_bounds(r);
        assert('0' <= s[s.len() - 1] <= '9');
        if r.len() == 0 {
            assert(ten_to(0) == 1);
            assert(dec_value(r) == 0);
        } else {
            assert(r[0] == s[0]);
        }
    }
}

/// The first digit that differs decides.
proof fn lemma_dec_less(a: Seq<char>, b: Seq<char>, k: int)
    requires
        all_digits(a),
        all_digits(b),
        a.len() == b.len(),
        0 <= k < a.len(),
        a.take(k) == b.take(k),
        a[k] < b[k],
    ensures
        dec_value(a) < dec_value(b),
{
    let n = a.len() as int;
    let ra = a.skip(k + 1);
    let rb = b.skip(k + 1);
    let ha = a.take(k + 1);
    let hb = b.take(k + 1);
    assert(a =~= ha + ra);
    assert(b =~= hb + rb);
    lemma_dec_concat(ha, ra);
    lemma_dec_concat(hb, rb);
    assert(ha.drop_last() =~= a.take(k));
    assert(hb.drop_last() =~= b.take(k));
    assert(ha.last() == a[k] && hb.last() == b[k]);
    assert('0' <= a[k] <= '9' && '0' <= b[k] <= '9');
    assert(dec_value(ha) + 1 <= dec_value(hb));
    assert(all_digits(ra)) by {
        assert forall|i: int| 0 <= i < ra.len() implies '0' <= #[trigger] ra[i] <= '9' by {
            assert(ra[i] == a[k + 1 + i]);
        }
    }
    lemma_dec_bounds(ra);
    let x = dec_value(ha);
    let y = dec_value(hb);
    let t = ten_to((n - k - 1) as nat);
    assert(x * t + t <= y * t) by (nonlinear_arith)
        requires
            x + 1 <= y,
    ;
}

/// Leading zeros stand for nothing.
proof fn lemma_dec_leading(s: Seq<char>, z: int)
    requires
        0 <= z <= s.len(),
        forall|i: int| 0 <= i < z ==> #[trigger] s[i] == '0',
    ensures
        dec_value(s) == dec_value(s.skip(z)),
{
    let a = s.take(z);
    let b = s.skip(z);
    assert(s =~= a + b);
    lemma_dec_concat(a, b);
    lemma_dec_zeros(a);
    assert(0 * ten_to(b.len()) == 0);
}

proof fn lemma_dec_zeros(s: Seq<char>)
    requires
        forall|i: int| 0 <= i < s.len() ==> #[trigger] s[i] == '0',
    ensures
        dec_value(s) == 0,
    decreases s.len(),
{
    if s.len() > 0 {
        let r = s.drop_last();
        assert forall|i: int| 0 <= i < r.len() implies #[trigger] r[i] == '0' by {
            assert(r[i] == s[i]);
        }
        lemma_dec_zeros(r);
        assert(s[s.len() - 1] == '0');
    }
}

/// What the number of digits before the point alone decides.
proof fn lemma_by_length(m: Seq<char>, scale: int, limit: Seq<char>)
    requires
        all_digits(m),
        m.len() > 0,
        m[0] != '0',
        all_digits(limit),
        limit.len() > 0,
        limit[0] != '0',
    ensures
        m.len() + scale > limit.len() ==> at_least(m, scale, dec_value(limit)),
        m.len() + scale < limit.len() ==> !at_least(m, scale, dec_value(limit)),
{
    let n = m.len() as int;
    let l = limit.len() as int;
    let v = dec_value(m);
    let t = dec_value(limit);
    let p = n + scale;
    lemma_dec_bounds(m);
    lemma_dec_bounds(limit);
    if p > l {
        lemma_ten_monotone(l as nat, (p - 1) as nat);
        if scale >= 0 {
            lemma_ten_sum((n - 1) as nat, scale as nat);
            let q = ten_to(scale as nat);
            assert(v * q >= ten_to((n - 1) as nat) * q) by (nonlinear_arith)
                requires
                    v >= ten_to((n - 1) as nat),
            ;
            assert(((n - 1) as nat + scale as nat) as nat == (p - 1) as nat);
        } else {
            let k = (-scale) as nat;
            lemma_ten_sum((p - 1) as nat, k);
            lemma_ten_positive(k);
            let q = ten_to(k);
            assert(ten_to((p - 1) as nat) * q >= t * q) by (nonlinear_arith)
                requires
                    ten_to((p - 1) as nat) >= t,
            ;
            assert(((p - 1) as nat + k) as nat == (n - 1) as nat);
        }
    } else if p < l {
        if scale >= 0 {
            lemma_ten_sum(n as nat, scale as nat);
            lemma_ten_positive(scale as nat);
            let q = ten_to(scale as nat);
            assert(v * q < ten_to(n as nat) * q) by (nonlinear_arith)
                requires
                    v < ten_to(n as nat),
                    q > 0,
            ;
            lemma_ten_monotone(p as nat, (l - 1) as nat);
            assert((n as nat + scale as nat) as nat == p as nat);
        } else {
            let k = (-scale) as nat;
            let q = ten_to(k);
            lemma_ten_positive(k);
            let u = ten_to((l - 1) as nat);
            lemma_ten_sum((l - 1) as nat, k);
            assert(n <= l - 1 + k);
            lemma_ten_monotone(n as nat, ((l - 1) as nat + k) as nat);
            assert(u * q <= t * q) by (nonlinear_arith)
                requires
                    u <= t,
            ;
        }
    }
}

/// When the two have as many digits before the point, those digits decide.
proof fn lemma_by_digits(m: Seq<char>, scale: int, limit: Seq<char>, head: Seq<char>)
    requires
        all_digits(m),
        all_digits(limit),
        m.len() + scale == limit.len(),
        head.len() == limit.len(),
        forall|i: int|
            0 <= i < head.len() ==> #[trigger] head[i] == (if i < m.len() {
                m[i]
            } else {
                '0'
            }),
    ensures
        at_least(m, scale, dec_value(limit)) == (dec_value(head) >= dec_value(limit)),
{
    let t = dec_value(limit);
    if scale >= 0 {
        let zeros = Seq::new(scale as nat, |i: int| '0');
        assert(head =~= m + zeros);
        lemma_dec_concat(m, zeros);
        lemma_dec_zeros(zeros);
    } else {
        let k = (-scale) as nat;
        let l = limit.len() as int;
        let rest = m.skip(l);
        assert(head =~= m.take(l));
        assert(m =~= head + rest);
        lemma_dec_concat(head, rest);
        assert(all_digits(rest)) by {
            assert forall|i: int| 0 <= i < rest.len() implies '0' <= #[trigger] rest[i] <= '9' by {
                assert(rest[i] == m[l + i]);
            }
        }
        lemma_dec_bounds(rest);
        let h = dec_value(head);
        let r = dec_value(rest);
        let q = ten_to(k);
        assert(rest.len() == k);
        assert(h * q + r >= t * q <==> h >= t) by (nonlinear_arith)
            requires
                r < q,
                h >= 0,
                t >= 0,
                r >= 0,
        ;
    }
}

/// The value of an exponent, as far as it matters.
fn exponent_value(x: &[char]) -> (n: u128)
    requires
        all_digits(x@),
    ensures
        n == dec_value(x@) || (n == 0x1_0000_0000_0000_0000_0000 && dec_value(x@) >= n),
        n <= 0x1_0000_0000_0000_0000_0000,
{
    let mut n: u128 = 0;
    let mut i: usize = 0;
    proof {
        assert(x@.take(0) =~= Seq::empty());
    }
    while i < x.len()
        invariant
            i <= x@.len(),
            all_digits(x@),
            n == dec_value(x@.take(i as int)) || (n == 0x1_0000_0000_0000_0000_0000 && dec_value(
                x@.take(i as int),
            ) >= n),
            n <= 0x1_0000_0000_0000_0000_0000,
        decreases x.len() - i,
    {
        let c: char = x[i];
        proof {
            assert('0' <= x@[i as int] <= '9');
            assert(x@.take(i + 1).drop_last() =~= x@.take(i as int));
            assert(x@.take(i + 1).last() == x@[i as int]);
        }
        let d: u128 = (c as u32 - 48) as u128;
        let next: u128 = n * 10 + d;
        if next < 0x1_0000_0000_0000_0000_0000 {
            n = next;
        } else {
            n = 0x1_0000_0000_0000_0000_0000;
        }
        i = i + 1;
    }
    proof {
        assert(x@.take(x@.len() as int) =~= x@);
    }
    n
}

proof fn lemma_limit()
    ensures
        LEAST_INFINITE@.len() == 309,
        all_digits(LEAST_INFINITE@),
        LEAST_INFINITE@[0] != '0',
{
    reveal_strlit("179769313486231580793728971405303415079934132710037826936173778980444968292764750946649017977587207096330286416692887910946555547851940402630657488671505820681908902000708383676273854845817711531764475730270069855571366959622842914819860834936475292719074168444365510704342711559699508093042880177904174497792");
}

/// Whether a literal rounds to infinity: its digits, how many of them follow
/// the point, and its exponent.
pub fn rounds_to_infinity(
    digits: &[char],
    fraction: usize,
    exponent: &[char],
    negative: bool,
) -> (r: bool)
    requires
        all_digits(digits@),
        all_digits(exponent@),
        fraction <= digits@.len(),
    ensures
        r == out_of_range(digits@, fraction as nat, exponent@, negative),
{
    proof {
        lemma_limit();
    }
    let ghost limit = LEAST_INFINITE@;
    let ghost e = if negative {
        -dec_value(exponent@)
    } else {
        dec_value(exponent@) as int
    };
    let ghost scale = e - fraction;
    let mut z: usize = 0;
    while z < digits.len() && digits[z] == '0'
        invariant
            z <= digits@.len(),
            forall|i: int| 0 <= i < z ==> #[trigger] digits@[i] == '0',
        decreases digits.len() - z,
    {
        z = z + 1;
    }
    let ghost m = digits@.skip(z as int);
    proof {
        lemma_dec_leading(digits@, z as int);
        assert(dec_value(digits@) == dec_value(m));
        assert(at_least(digits@, scale, dec_value(limit)) == at_least(m, scale, dec_value(limit)));
        assert(all_digits(m)) by {
            assert forall|i: int| 0 <= i < m.len() implies '0' <= #[trigger] m[i] <= '9' by {
                assert(m[i] == digits@[z + i]);
            }
        }
        lemma_dec_bounds(limit);
        lemma_ten_positive(308);
    }
    let n: usize = digits.len() - z;
    if n == 0 {
        proof {
            assert(m =~= Seq::empty());
            if scale >= 0 {
                assert(0 * ten_to(scale as nat) == 0);
            } else {
                lemma_ten_positive((-scale) as nat);
                let t = dec_value(limit);
                let q = ten_to((-scale) as nat);
                assert(t * q > 0) by (nonlinear_arith)
                    requires
                        t > 0,
                        q > 0,
                ;
            }
        }
        return false;
    }
    let x: u128 = exponent_value(exponent);
    proof {
        assert(m[0] == digits@[z as int]);
        lemma_by_length(m, scale, limit);
        assert(m.len() == n);
    }
    let p: i128 = if negative {
        n as i128 - x as i128 - fraction as i128
    } else {
        n as i128 + x as i128 - fraction as i128
    };
    if p > 309 {
        return true;
    }
    if p < 309 {
        return false;
    }
    let t = chars_of(LEAST_INFINITE);
    let ghost head = Seq::new(
        309,
        |i: int|
            if i < m.len() {
                m[i]
            } else {
                '0'
            },
    );
    proof {
        assert(m.len() + scale == 309);
        lemma_by_digits(m, scale, limit, head);
        assert(all_digits(head)) by {
            assert forall|i: int| 0 <= i < head.len() implies '0' <= #[trigger] head[i] <= '9' by {
                if i < m.len() {
                    assert('0' <= m[i] <= '9');
                }
            }
        }
    }
    let mut k: usize = 0;
    while k < 309
        invariant
            k <= 309,
            z + n == digits@.len(),
            digits@.len() <= usize::MAX,
            m == digits@.skip(z as int),
            limit == LEAST_INFINITE@,
            t@ == limit,
            limit.len() == 309,
            all_digits(limit),
            all_digits(head),
            head.len() == 309,
            forall|i: int|
                0 <= i < 309 ==> #[trigger] head[i] == (if i < m.len() {
                    m[i]
                } else {
                    '0'
                }),
            head.take(k as int) == limit.take(k as int),
            out_of_range(digits@, fraction as nat, exponent@, negative) == (dec_value(head)
                >= dec_value(limit)),
        decreases 309 - k,
    {
        let c: char = if k < n {
            digits[z + k]
        } else {
            '0'
        };
        proof {
            assert(c == head[k as int]);
        }
        if c < t[k] {
            proof {
                lemma_dec_less(head, limit, k as int);
            }
            return false;
        }
        if c > t[k] {
            proof {
                lemma_dec_less(limit, head, k as int);
            }
            return true;
        }
        proof {
            assert(head.take(k + 1) =~= head.take(k as int).push(head[k as int]));
            assert(limit.take(k + 1) =~= limit.take(k as int).push(limit[k as int]));
        }
        k = k + 1;
    }
    proof {
        assert(head.take(309) =~= head);
        assert(limit.take(309) =~= limit);
    }
    true
}

} // verus!
