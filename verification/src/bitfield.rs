//! A piece bitfield: most significant bit first.
//!
//! Shared by the wire codec (the `bitfield` message), the picker
//! (availability and our own progress), and resume (on-disk `have` and
//! `verified`). Trailing bits of the final byte are spare and stay zero: a
//! peer setting them is a protocol violation.
use vstd::prelude::*;
#[allow(unused_imports)]
use vstd::string::*;
use crate::decimal::{decimal_text, push_decimal};

verus! {

/// Bit `k` of a byte, counted from the most significant.
pub open spec fn bit_of(b: u8, k: int) -> bool {
    (b & (0x80u8 >> (k as u8))) != 0
}

/// Bytes that hold `len` bits.
pub open spec fn bytes_for(len: nat) -> nat {
    (len + 7) / 8
}

/// Whether `bytes` is the packed form of `v`: exactly as many bytes as it
/// takes, the bits in order, the spare ones zero.
pub open spec fn spells(bytes: Seq<u8>, v: Seq<bool>) -> bool {
    &&& bytes.len() == bytes_for(v.len())
    &&& forall|i: int|
        0 <= i < 8 * bytes.len() ==> #[trigger] bit_at(bytes, i) == (i < v.len() && v[i])
}

/// Bit `i` of a packed form.
pub open spec fn bit_at(bytes: Seq<u8>, i: int) -> bool {
    bit_of(bytes[i / 8], i % 8)
}

/// The packed form of `v`.
pub open spec fn packed_form(v: Seq<bool>) -> Seq<u8> {
    choose|b: Seq<u8>| spells(b, v)
}

/// What a packed form of `len` pieces says, if it is one.
pub open spec fn field_in(bytes: Seq<u8>, len: nat) -> Option<Seq<bool>> {
    let v = Seq::new(len, |i: int| bit_at(bytes, i));
    if spells(bytes, v) {
        Some(v)
    } else {
        None
    }
}

/// How many of the pieces are present.
pub open spec fn count_present(v: Seq<bool>) -> nat
    decreases v.len(),
{
    if v.len() == 0 {
        0
    } else {
        count_present(v.drop_last()) + if v.last() {
            1nat
        } else {
            0nat
        }
    }
}

/// The indices of the present pieces, ascending.
pub open spec fn present_indices(v: Seq<bool>) -> Seq<u32>
    decreases v.len(),
{
    if v.len() == 0 {
        Seq::empty()
    } else if v.last() {
        present_indices(v.drop_last()).push((v.len() - 1) as u32)
    } else {
        present_indices(v.drop_last())
    }
}

/// A fixed-length bit set over piece indices `0..len`.
#[derive(PartialEq, Eq, Debug)]
pub struct Bitfield {
    bits: Vec<u8>,
    len: u32,
}

/// Why raw bytes were rejected as a bitfield.
#[derive(Clone, Copy, Debug, PartialEq, Eq)]
pub enum BadBitfield {
    /// Byte length disagrees with the piece count.
    WrongLength,
    /// Trailing spare bits were set.
    SpareBitsSet,
}

/// Bytes needed to hold `len` bits.
pub fn byte_len(len: u32) -> (n: usize)
    ensures
        n == bytes_for(len as nat),
{
    ((len as u64 + 7) / 8) as usize
}

proof fn lemma_bit_ops(b: u8, k: u8, m: u8)
    requires
        k < 8,
        m < 8,
    ensures
        ((b | (0x80u8 >> k)) & (0x80u8 >> m)) != 0 <==> (m == k || (b & (0x80u8 >> m)) != 0),
        ((b & !(0x80u8 >> k)) & (0x80u8 >> m)) != 0 <==> (m != k && (b & (0x80u8 >> m)) != 0),
{
    assert(((b | (0x80u8 >> k)) & (0x80u8 >> m)) != 0 <==> (m == k || (b & (0x80u8 >> m)) != 0))
        by (bit_vector)
        requires
            k < 8,
            m < 8,
    ;
    assert(((b & !(0x80u8 >> k)) & (0x80u8 >> m)) != 0 <==> (m != k && (b & (0x80u8 >> m)) != 0))
        by (bit_vector)
        requires
            k < 8,
            m < 8,
    ;
}

proof fn lemma_spare_mask(b: u8, used: u8, m: u8)
    requires
        0 < used < 8,
        m < 8,
    ensures
        ((b & !(0xFFu8 >> used)) & (0x80u8 >> m)) != 0 <==> (m < used && (b & (0x80u8 >> m)) != 0),
        (b & (0xFFu8 >> used)) == 0 && m >= used ==> (b & (0x80u8 >> m)) == 0,
        ((0xFFu8 & (0x80u8 >> m)) != 0),
        ((0u8 & (0x80u8 >> m)) == 0),
{
    assert(((b & !(0xFFu8 >> used)) & (0x80u8 >> m)) != 0 <==> (m < used && (b & (0x80u8 >> m))
        != 0)) by (bit_vector)
        requires
            0 < used < 8,
            m < 8,
    ;
    assert((b & (0xFFu8 >> used)) == 0 && m >= used ==> (b & (0x80u8 >> m)) == 0) by (bit_vector)
        requires
            0 < used < 8,
            m < 8,
    ;
    lemma_uniform_bytes(m);
}

proof fn lemma_uniform_bytes(m: u8)
    requires
        m < 8,
    ensures
        ((0xFFu8 & (0x80u8 >> m)) != 0),
        ((0u8 & (0x80u8 >> m)) == 0),
{
    assert(((0xFFu8 & (0x80u8 >> m)) != 0) && ((0u8 & (0x80u8 >> m)) == 0)) by (bit_vector)
        requires
            m < 8,
    ;
}

/// A set spare bit shows through the spare mask.
proof fn lemma_spare_witness(b: u8, used: u8) -> (k: u8)
    requires
        0 < used < 8,
        (b & (0xFFu8 >> used)) != 0,
    ensures
        used <= k < 8,
        bit_of(b, k as int),
{
    assert(exists|m: u8| used <= m < 8 && (b & (0x80u8 >> m)) != 0) by {
        assert(((b & 0x40) != 0 && used <= 1) || ((b & 0x20) != 0 && used <= 2) || ((b & 0x10) != 0
            && used <= 3) || ((b & 0x08) != 0 && used <= 4) || ((b & 0x04) != 0 && used <= 5) || ((b
            & 0x02) != 0 && used <= 6) || ((b & 0x01) != 0 && used <= 7)) by (bit_vector)
            requires
                0 < used < 8,
                (b & (0xFFu8 >> used)) != 0,
        ;
        assert(0x80u8 >> 1 == 0x40 && 0x80u8 >> 2 == 0x20 && 0x80u8 >> 3 == 0x10 && 0x80u8 >> 4
            == 0x08 && 0x80u8 >> 5 == 0x04 && 0x80u8 >> 6 == 0x02 && 0x80u8 >> 7 == 0x01)
            by (bit_vector);
        let m: u8 = if (b & 0x40) != 0 && used <= 1 {
            1
        } else if (b & 0x20) != 0 && used <= 2 {
            2
        } else if (b & 0x10) != 0 && used <= 3 {
            3
        } else if (b & 0x08) != 0 && used <= 4 {
            4
        } else if (b & 0x04) != 0 && used <= 5 {
            5
        } else if (b & 0x02) != 0 && used <= 6 {
            6
        } else {
            7
        };
        assert(used <= m < 8 && (b & (0x80u8 >> m)) != 0);
    }
    choose|m: u8| used <= m < 8 && (b & (0x80u8 >> m)) != 0
}

/// Eight bits determine a byte.
proof fn lemma_byte_extensional(a: u8, b: u8)
    requires
        forall|k: int| 0 <= k < 8 ==> bit_of(a, k) == bit_of(b, k),
    ensures
        a == b,
{
    assert(bit_of(a, 0) == bit_of(b, 0));
    assert(bit_of(a, 1) == bit_of(b, 1));
    assert(bit_of(a, 2) == bit_of(b, 2));
    assert(bit_of(a, 3) == bit_of(b, 3));
    assert(bit_of(a, 4) == bit_of(b, 4));
    assert(bit_of(a, 5) == bit_of(b, 5));
    assert(bit_of(a, 6) == bit_of(b, 6));
    assert(bit_of(a, 7) == bit_of(b, 7));
    assert(a == b) by (bit_vector)
        requires
            ((a & (0x80u8 >> 0u8)) != 0) == ((b & (0x80u8 >> 0u8)) != 0),
            ((a & (0x80u8 >> 1u8)) != 0) == ((b & (0x80u8 >> 1u8)) != 0),
            ((a & (0x80u8 >> 2u8)) != 0) == ((b & (0x80u8 >> 2u8)) != 0),
            ((a & (0x80u8 >> 3u8)) != 0) == ((b & (0x80u8 >> 3u8)) != 0),
            ((a & (0x80u8 >> 4u8)) != 0) == ((b & (0x80u8 >> 4u8)) != 0),
            ((a & (0x80u8 >> 5u8)) != 0) == ((b & (0x80u8 >> 5u8)) != 0),
            ((a & (0x80u8 >> 6u8)) != 0) == ((b & (0x80u8 >> 6u8)) != 0),
            ((a & (0x80u8 >> 7u8)) != 0) == ((b & (0x80u8 >> 7u8)) != 0),
    ;
}

/// A set of pieces has one packed form.
pub proof fn law_packed_form_is_unique(a: Seq<u8>, b: Seq<u8>, v: Seq<bool>)
    requires
        spells(a, v),
        spells(b, v),
    ensures
        a == b,
{
    assert forall|j: int| 0 <= j < a.len() implies a[j] == b[j] by {
        assert forall|k: int| 0 <= k < 8 implies bit_of(a[j], k) == bit_of(b[j], k) by {
            assert((8 * j + k) / 8 == j && (8 * j + k) % 8 == k);
            assert(bit_at(a, 8 * j + k) == bit_at(b, 8 * j + k));
        }
        lemma_byte_extensional(a[j], b[j]);
    }
    assert(a =~= b);
}

/// A packed form holds one set of pieces of a given size.
pub proof fn law_packed_form_is_faithful(bytes: Seq<u8>, v: Seq<bool>, w: Seq<bool>)
    requires
        spells(bytes, v),
        spells(bytes, w),
        v.len() == w.len(),
    ensures
        v == w,
{
    assert forall|i: int| 0 <= i < v.len() implies v[i] == w[i] by {
        assert(i < 8 * bytes.len());
        assert(bit_at(bytes, i) == v[i]);
    }
    assert(v =~= w);
}

/// Nobody counts more pieces than there are, and all are counted exactly when
/// all are present.
pub proof fn law_count_bounds(v: Seq<bool>)
    ensures
        count_present(v) <= v.len(),
        count_present(v) == v.len() <==> (forall|i: int| 0 <= i < v.len() ==> v[i]),
    decreases v.len(),
{
    if v.len() > 0 {
        law_count_bounds(v.drop_last());
        let w = v.drop_last();
        if forall|i: int| 0 <= i < v.len() ==> v[i] {
            assert forall|i: int| 0 <= i < w.len() implies w[i] by {
                assert(v[i]);
            }
        }
        if count_present(v) == v.len() {
            assert forall|i: int| 0 <= i < v.len() implies v[i] by {
                if i < w.len() {
                    assert(w[i]);
                }
            }
        }
    }
}

/// Marking an absent piece adds one to the count, and unmarking a present one
/// takes one away.
pub proof fn law_count_steps_by_one(v: Seq<bool>, i: int, b: bool)
    requires
        0 <= i < v.len(),
    ensures
        count_present(v.update(i, b)) == count_present(v) + (if b {
            1int
        } else {
            0int
        }) - (if v[i] {
            1int
        } else {
            0int
        }),
    decreases v.len(),
{
    let w = v.update(i, b);
    if i == v.len() - 1 {
        assert(w.drop_last() =~= v.drop_last());
    } else {
        law_count_steps_by_one(v.drop_last(), i, b);
        assert(w.drop_last() =~= v.drop_last().update(i, b));
    }
}

/// The ascending indices are those of the present pieces, each once, and
/// there are as many as are counted.
pub proof fn law_present_indices(v: Seq<bool>)
    requires
        v.len() <= u32::MAX,
    ensures
        present_indices(v).len() == count_present(v),
        forall|j: int|
            0 <= j < present_indices(v).len() ==> (#[trigger] present_indices(v)[j]) < v.len()
                && v[present_indices(v)[j] as int],
        forall|i: int|
            0 <= i < v.len() && v[i] ==> present_indices(v).contains(#[trigger] (i as u32)),
        forall|j: int, k: int|
            0 <= j < k < present_indices(v).len() ==> (#[trigger] present_indices(v)[j])
                < (#[trigger] present_indices(v)[k]),
    decreases v.len(),
{
    if v.len() > 0 {
        let w = v.drop_last();
        law_present_indices(w);
        let p = present_indices(v);
        let q = present_indices(w);
        assert forall|i: int| 0 <= i < v.len() && v[i] implies p.contains(
            #[trigger] (i as u32),
        ) by {
            if i < w.len() {
                assert(w[i]);
                assert(q.contains(i as u32));
                let j = choose|j: int| 0 <= j < q.len() && q[j] == i as u32;
                assert(p[j] == i as u32);
            } else {
                assert(p[p.len() - 1] == i as u32);
            }
        }
        assert forall|j: int| 0 <= j < p.len() implies (#[trigger] p[j]) < v.len()
            && v[p[j] as int] by {
            if j < q.len() {
                assert(p[j] == q[j]);
                assert(w[q[j] as int]);
            }
        }
    }
}

impl View for Bitfield {
    type V = Seq<bool>;

    closed spec fn view(&self) -> Seq<bool> {
        Seq::new(self.len as nat, |i: int| bit_at(self.bits@, i))
    }
}

impl Bitfield {
    #[verifier::type_invariant]
    spec fn packed(self) -> bool {
        spells(self.bits@, self@)
    }

    /// A bitfield of `len` pieces, all absent.
    pub fn empty(len: u32) -> (bf: Bitfield)
        ensures
            bf@ == Seq::new(len as nat, |i: int| false),
    {
        let bits: Vec<u8> = vec![0u8; byte_len(len)];
        let ghost bf = Bitfield { bits, len };
        proof {
            assert forall|i: int| 0 <= i < 8 * bits@.len() implies !(#[trigger] bit_at(
                bits@,
                i,
            )) by {
                lemma_uniform_bytes((i % 8) as u8);
            }
            assert(bf@ =~= Seq::new(len as nat, |i: int| false));
        }
        Bitfield { bits, len }
    }

    /// A bitfield of `len` pieces, all present.
    pub fn full(len: u32) -> (bf: Bitfield)
        ensures
            bf@ == Seq::new(len as nat, |i: int| true),
    {
        let mut bits: Vec<u8> = vec![0xFFu8; byte_len(len)];
        clear_spare_bits(&mut bits, len);
        let ghost bf = Bitfield { bits, len };
        proof {
            assert forall|i: int| 0 <= i < 8 * bits@.len() implies #[trigger] bit_at(bits@, i) == (i
                < len) by {
                lemma_uniform_bytes((i % 8) as u8);
            }
            assert(bf@ =~= Seq::new(len as nat, |i: int| true));
        }
        Bitfield { bits, len }
    }

    /// Wrap raw bytes as a bitfield of `len` pieces.
    ///
    /// The byte length must match `len` exactly, and spare trailing bits must
    /// be zero.
    pub fn from_bytes(bytes: &[u8], len: u32) -> (r: Result<Bitfield, BadBitfield>)
        ensures
            match r {
                Ok(bf) => spells(bytes@, bf@) && bf@.len() == len && field_in(bytes@, len as nat)
                    == Some(bf@),
                Err(BadBitfield::WrongLength) => bytes@.len() != bytes_for(len as nat),
                Err(BadBitfield::SpareBitsSet) => bytes@.len() == bytes_for(len as nat) && exists|
                    i: int,
                | len <= i < 8 * bytes@.len() && #[trigger] bit_at(bytes@, i),
            },
    {
        if bytes.len() != byte_len(len) {
            return Err(BadBitfield::WrongLength);
        }
        let used: u32 = len % 8;
        if used != 0 {
            let spare: u8 = 0xFFu8 >> (used as u8);
            let last: u8 = bytes[bytes.len() - 1];
            if last & spare != 0 {
                proof {
                    let k = lemma_spare_witness(last, used as u8);
                    let i = 8 * (bytes@.len() - 1) + k;
                    assert(i / 8 == bytes@.len() - 1 && i % 8 == k);
                    assert(bit_at(bytes@, i));
                }
                return Err(BadBitfield::SpareBitsSet);
            }
            proof {
                assert forall|i: int| len <= i < 8 * bytes@.len() implies !(#[trigger] bit_at(
                    bytes@,
                    i,
                )) by {
                    assert(i / 8 == bytes@.len() - 1);
                    lemma_spare_mask(last, used as u8, (i % 8) as u8);
                }
            }
        }
        let mut bits: Vec<u8> = Vec::new();
        crate::strings::push_all(&mut bits, bytes);
        let ghost bf = Bitfield { bits, len };
        proof {
            assert(bits@ =~= bytes@);
            assert(spells(bytes@, bf@));
            assert(bf@ =~= Seq::new(len as nat, |i: int| bit_at(bytes@, i)));
        }
        Ok(Bitfield { bits, len })
    }

    /// The raw bytes, most significant bit first.
    pub fn as_bytes(&self) -> (b: &[u8])
        ensures
            spells(b@, self@),
            b@ == packed_form(self@),
    {
        proof {
            use_type_invariant(&*self);
            assert(spells(self.bits@, self@));
            law_packed_form_is_unique(self.bits@, packed_form(self@), self@);
        }
        self.bits.as_slice()
    }

    /// Number of pieces this bitfield spans.
    pub fn len(&self) -> (n: u32)
        ensures
            n == self@.len(),
    {
        self.len
    }

    /// Whether the bitfield spans zero pieces.
    pub fn is_empty(&self) -> (r: bool)
        ensures
            r == (self@.len() == 0),
    {
        self.len == 0
    }

    /// Whether piece `index` is present. Out-of-range indices are absent.
    pub fn has(&self, index: u32) -> (r: bool)
        ensures
            r == (index < self@.len() && self@[index as int]),
            self@.len() <= u32::MAX,
    {
        if index >= self.len {
            return false;
        }
        proof {
            use_type_invariant(&*self);
            assert(bit_at(self.bits@, index as int) == self@[index as int]);
        }
        self.bits[(index / 8) as usize] & (0x80u8 >> ((index % 8) as u8)) != 0
    }

    /// Mark piece `index` present. Out-of-range indices are ignored.
    pub fn set(&mut self, index: u32)
        ensures
            final(self)@ == (if index < old(self)@.len() {
                old(self)@.update(index as int, true)
            } else {
                old(self)@
            }),
    {
        self.assign(index, true);
    }

    /// Mark piece `index` absent. Out-of-range indices are ignored.
    pub fn clear(&mut self, index: u32)
        ensures
            final(self)@ == (if index < old(self)@.len() {
                old(self)@.update(index as int, false)
            } else {
                old(self)@
            }),
    {
        self.assign(index, false);
    }

    fn assign(&mut self, index: u32, value: bool)
        ensures
            final(self)@ == (if index < old(self)@.len() {
                old(self)@.update(index as int, value)
            } else {
                old(self)@
            }),
    {
        if index >= self.len {
            return;
        }
        let ghost v = self@;
        let ghost before = self.bits@;
        let len: u32 = self.len;
        proof {
            use_type_invariant(&*self);
        }
        let mut whole = Bitfield::empty(0);
        std::mem::swap(self, &mut whole);
        let Bitfield { bits: mut bits, len: _ } = whole;
        let byte: usize = (index / 8) as usize;
        let k: u8 = (index % 8) as u8;
        let current: u8 = bits[byte];
        let changed: u8 = if value {
            current | (0x80u8 >> k)
        } else {
            current & !(0x80u8 >> k)
        };
        bits.set(byte, changed);
        let ghost bf = Bitfield { bits, len };
        proof {
            let target = v.update(index as int, value);
            assert forall|i: int| 0 <= i < 8 * bits@.len() implies #[trigger] bit_at(bits@, i) == (i
                < target.len() && target[i]) by {
                assert(bit_at(before, i) == (i < v.len() && v[i]));
                lemma_bit_ops(current, k, (i % 8) as u8);
                if i / 8 != byte {
                    assert(bits@[i / 8] == before[i / 8]);
                } else {
                    assert(i == index <==> i % 8 == k);
                }
            }
            assert(bf@ =~= target);
        }
        *self = Bitfield { bits, len };
    }

    /// How many pieces are present.
    pub fn count(&self) -> (n: u32)
        ensures
            n == count_present(self@),
    {
        let mut n: u32 = 0;
        let mut i: u32 = 0;
        while i < self.len
            invariant
                i <= self.len,
                self@.len() == self.len,
                n == count_present(self@.take(i as int)),
                n <= i,
            decreases self.len - i,
        {
            proof {
                assert(self@.take(i as int + 1).drop_last() =~= self@.take(i as int));
            }
            if self.has(i) {
                n = n + 1;
            }
            i = i + 1;
        }
        proof {
            assert(self@.take(i as int) =~= self@);
        }
        n
    }

    /// Whether every piece is present.
    pub fn is_full(&self) -> (r: bool)
        ensures
            r == (forall|i: int| 0 <= i < self@.len() ==> self@[i]),
            r == (count_present(self@) == self@.len()),
    {
        proof {
            law_count_bounds(self@);
        }
        self.count() == self.len
    }

    /// The indices of present pieces, ascending.
    pub fn iter_present(&self) -> (r: Vec<u32>)
        ensures
            r@ == present_indices(self@),
    {
        let mut out: Vec<u32> = Vec::new();
        let mut i: u32 = 0;
        while i < self.len
            invariant
                i <= self.len,
                self@.len() == self.len,
                out@ == present_indices(self@.take(i as int)),
            decreases self.len - i,
        {
            proof {
                assert(self@.take(i as int + 1).drop_last() =~= self@.take(i as int));
            }
            if self.has(i) {
                out.push(i);
            }
            i = i + 1;
        }
        proof {
            assert(self@.take(i as int) =~= self@);
        }
        out
    }

    /// A short account of the set: how many pieces of how many are present.
    pub fn summary(&self) -> (s: String)
        ensures
            s@ == "Bitfield("@ + decimal_text(count_present(self@)) + "/"@ + decimal_text(
                self@.len(),
            ) + " present)"@,
    {
        let mut s = "Bitfield(".to_owned();
        push_decimal(&mut s, self.count() as u64);
        s.append("/");
        push_decimal(&mut s, self.len as u64);
        s.append(" present)");
        s
    }
}

impl Clone for Bitfield {
    fn clone(&self) -> (r: Bitfield)
        ensures
            r@ == self@,
    {
        proof {
            use_type_invariant(&*self);
        }
        let mut bits: Vec<u8> = Vec::new();
        crate::strings::push_all(&mut bits, self.bits.as_slice());
        let ghost copy = Bitfield { bits, len: self.len };
        proof {
            assert(bits@ =~= self.bits@);
            assert(copy@ =~= self@);
        }
        Bitfield { bits, len: self.len }
    }
}

fn clear_spare_bits(bits: &mut Vec<u8>, len: u32)
    requires
        old(bits)@.len() == bytes_for(len as nat),
    ensures
        final(bits)@.len() == old(bits)@.len(),
        forall|i: int|
            0 <= i < 8 * final(bits)@.len() ==> #[trigger] bit_at(final(bits)@, i) == (i < len
                && bit_at(old(bits)@, i)),
{
    let ghost before = bits@;
    let used: u32 = len % 8;
    if used != 0 && bits.len() > 0 {
        let at: usize = bits.len() - 1;
        let last: u8 = bits[at];
        let kept: u8 = last & !(0xFFu8 >> (used as u8));
        bits.set(at, kept);
        proof {
            assert forall|i: int| 0 <= i < 8 * bits@.len() implies #[trigger] bit_at(bits@, i) == (i
                < len && bit_at(before, i)) by {
                lemma_spare_mask(last, used as u8, (i % 8) as u8);
                if i / 8 == at {
                    assert(i < len <==> i % 8 < used);
                } else {
                    assert(bits@[i / 8] == before[i / 8]);
                }
            }
        }
    }
}

/// A byte of a packed form: one bit for each of eight pieces.
spec fn packed_byte(v: Seq<bool>, j: int) -> u8 {
    let on = |k: int, mask: u8|
        if 8 * j + k < v.len() && v[8 * j + k] {
            mask
        } else {
            0u8
        };
    on(0, 0x80) | on(1, 0x40) | on(2, 0x20) | on(3, 0x10) | on(4, 0x08) | on(5, 0x04) | on(6, 0x02)
        | on(7, 0x01)
}

proof fn lemma_packed_byte(v: Seq<bool>, j: int, k: int)
    requires
        0 <= k < 8,
    ensures
        bit_of(packed_byte(v, j), k) == (8 * j + k < v.len() && v[8 * j + k]),
{
    let on = |k: int, mask: u8|
        if 8 * j + k < v.len() && v[8 * j + k] {
            mask
        } else {
            0u8
        };
    let a = on(0, 0x80);
    let b = on(1, 0x40);
    let c = on(2, 0x20);
    let d = on(3, 0x10);
    let e = on(4, 0x08);
    let f = on(5, 0x04);
    let g = on(6, 0x02);
    let h = on(7, 0x01);
    let x = k as u8;
    let all = a | b | c | d | e | f | g | h;
    assert(all & (0x80u8 >> x) == (if x == 0 {
        a
    } else if x == 1 {
        b
    } else if x == 2 {
        c
    } else if x == 3 {
        d
    } else if x == 4 {
        e
    } else if x == 5 {
        f
    } else if x == 6 {
        g
    } else {
        h
    })) by (bit_vector)
        requires
            x < 8,
            all == a | b | c | d | e | f | g | h,
            a == 0 || a == 0x80,
            b == 0 || b == 0x40,
            c == 0 || c == 0x20,
            d == 0 || d == 0x10,
            e == 0 || e == 0x08,
            f == 0 || f == 0x04,
            g == 0 || g == 0x02,
            h == 0 || h == 0x01,
    ;
}

/// Every piece set has a packed form, which reads back as the set.
pub proof fn law_packed_form_spells(v: Seq<bool>)
    ensures
        spells(packed_form(v), v),
        field_in(packed_form(v), v.len()) == Some(v),
{
    let b = Seq::new(bytes_for(v.len()), |j: int| packed_byte(v, j));
    assert forall|i: int| 0 <= i < 8 * b.len() implies #[trigger] bit_at(b, i) == (i < v.len()
        && v[i]) by {
        lemma_packed_byte(v, i / 8, i % 8);
        assert(8 * (i / 8) + i % 8 == i);
    }
    assert(spells(b, v));
    let p = packed_form(v);
    let w = Seq::new(v.len(), |i: int| bit_at(p, i));
    assert(w =~= v) by {
        assert forall|i: int| 0 <= i < v.len() implies w[i] == v[i] by {
            assert(bit_at(p, i) == (i < v.len() && v[i]));
        }
    }
}

/// Which bit stands for which piece: the most significant of the first byte for
/// the first piece, and so on; eight to a byte, in as few bytes as it takes.
pub proof fn law_bits_go_from_the_most_significant(bytes: Seq<u8>, i: int, len: nat)
    requires
        0 <= i < 8 * bytes.len(),
    ensures
        bit_at(bytes, i) <==> (bytes[i / 8] >> ((7 - i % 8) as u8)) & 1 == 1,
        bytes_for(len) * 8 >= len,
        len > 0 ==> (bytes_for(len) - 1) * 8 < len,
        len == 0 ==> bytes_for(len) == 0,
{
    let b = bytes[i / 8];
    let k = (i % 8) as u8;
    let m = (7 - i % 8) as u8;
    assert((b & (0x80u8 >> k)) != 0 <==> (b >> m) & 1 == 1) by (bit_vector)
        requires
            k < 8,
            m == 7 - k,
    ;
}

/// What is read of the bytes of a peer's piece set: nothing unless there are as
/// many as it takes and no bit past the last piece is set; else the piece that
/// each bit stands for.
pub proof fn law_piece_set_is_read_bit_by_bit(bytes: Seq<u8>, len: nat)
    ensures
        field_in(bytes, len) is Some <==> bytes.len() == (len + 7) / 8 && forall|i: int|
            len <= i < 8 * bytes.len() ==> !#[trigger] bit_at(bytes, i),
        field_in(bytes, len) matches Some(v) ==> v.len() == len && forall|i: int|
            0 <= i < len ==> #[trigger] v[i] == bit_at(bytes, i),
{
    let v = Seq::new(len, |i: int| bit_at(bytes, i));
    if bytes.len() == (len + 7) / 8 && (forall|i: int|
        len <= i < 8 * bytes.len() ==> !#[trigger] bit_at(bytes, i)) {
        assert(spells(bytes, v));
    }
    if spells(bytes, v) {
        assert forall|i: int| len <= i < 8 * bytes.len() implies !#[trigger] bit_at(bytes, i) by {}
    }
}

} // verus!
