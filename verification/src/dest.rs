//! Peer addresses: the hash of an I2P destination.
use vstd::prelude::*;

verus! {

/// The 32-byte hash that names an I2P destination. The only kind of peer
/// address there is.
#[derive(Clone, Copy, Debug, PartialEq, Eq, PartialOrd, Ord, Hash)]
pub struct DestHash(pub [u8; 32]);

/// Whether two hashes are the same.
pub fn same_dest(a: DestHash, b: DestHash) -> (r: bool)
    ensures
        r == (a == b),
        r == (a.0@ == b.0@),
{
    let mut i: usize = 0;
    while i < 32
        invariant
            i <= 32,
            forall|j: int| 0 <= j < i ==> a.0@[j] == b.0@[j],
        decreases 32 - i,
    {
        if a.0[i] != b.0[i] {
            return false;
        }
        i = i + 1;
    }
    proof {
        assert(a.0@ =~= b.0@);
        assert(a.0 =~= b.0);
    }
    true
}

/// Concatenated hashes.
pub open spec fn packed(s: Seq<DestHash>) -> Seq<u8>
    decreases s.len(),
{
    if s.len() == 0 {
        Seq::empty()
    } else {
        packed(s.drop_last()) + s.last().0@
    }
}

/// Whether `s` is the hashes that `bytes` is made of.
pub open spec fn unpacked(bytes: Seq<u8>, s: Seq<DestHash>) -> bool {
    bytes == packed(s)
}

/// The hashes, one after the other.
pub fn pack(peers: &Vec<DestHash>) -> (out: Vec<u8>)
    ensures
        out@ == packed(peers@),
{
    let mut out: Vec<u8> = Vec::new();
    let mut i: usize = 0;
    proof {
        assert(peers@.take(0) =~= Seq::empty());
    }
    while i < peers.len()
        invariant
            i <= peers.len(),
            out@ == packed(peers@.take(i as int)),
        decreases peers.len() - i,
    {
        let h = peers[i];
        crate::strings::push_all(&mut out, h.0.as_slice());
        proof {
            assert(peers@.take(i as int + 1).drop_last() =~= peers@.take(i as int));
            assert(out@ =~= packed(peers@.take(i as int + 1)));
        }
        i = i + 1;
    }
    proof {
        assert(peers@.take(i as int) =~= peers@);
    }
    out
}

/// The hash that 32 bytes are.
pub fn hash_at(bytes: &[u8], at: usize) -> (h: DestHash)
    requires
        at + 32 <= bytes@.len(),
    ensures
        h.0@ == bytes@.subrange(at as int, at + 32),
{
    let mut h: [u8; 32] = [0u8; 32];
    let mut i: usize = 0;
    while i < 32
        invariant
            i <= 32,
            at + 32 <= bytes.len(),
            forall|j: int| 0 <= j < i ==> #[trigger] h@[j] == bytes@[at + j],
        decreases 32 - i,
    {
        h[i] = bytes[at + i];
        i = i + 1;
    }
    proof {
        assert(h@ =~= bytes@.subrange(at as int, at + 32));
    }
    DestHash(h)
}

/// The hashes that `bytes` is made of, if it is made of whole hashes.
pub fn unpack(bytes: &[u8]) -> (r: Option<Vec<DestHash>>)
    ensures
        match r {
            Some(peers) => bytes@.len() % 32 == 0 && peers@.len() == bytes@.len() / 32 && unpacked(
                bytes@,
                peers@,
            ),
            None => bytes@.len() % 32 != 0,
        },
{
    if bytes.len() % 32 != 0 {
        return None;
    }
    let mut out: Vec<DestHash> = Vec::new();
    let n: usize = bytes.len() / 32;
    let mut i: usize = 0;
    while i < n
        invariant
            i <= n,
            32 * n == bytes@.len(),
            bytes.len() == bytes@.len(),
            out@.len() == i,
            packed(out@) =~= bytes@.take(32 * i as int),
        decreases n - i,
    {
        let h = hash_at(bytes, 32 * i);
        let ghost had = out@;
        out.push(h);
        proof {
            assert(out@.drop_last() =~= had);
        }
        i = i + 1;
    }
    proof {
        assert(bytes@.take(32 * n as int) =~= bytes@);
    }
    Some(out)
}

/// Concatenated hashes are 32 bytes each.
pub proof fn lemma_packed_len(s: Seq<DestHash>)
    ensures
        packed(s).len() == 32 * s.len(),
    decreases s.len(),
{
    if s.len() > 0 {
        lemma_packed_len(s.drop_last());
    }
}

/// Concatenated hashes can be told apart again.
pub proof fn law_packing_is_injective(a: Seq<DestHash>, b: Seq<DestHash>)
    requires
        packed(a) == packed(b),
    ensures
        a == b,
    decreases a.len(),
{
    lemma_packed_len(a);
    lemma_packed_len(b);
    if a.len() > 0 {
        let x = packed(a.drop_last());
        let y = packed(b.drop_last());
        lemma_packed_len(a.drop_last());
        lemma_packed_len(b.drop_last());
        let whole = packed(a);
        let n = x.len() as int;
        assert(whole.take(n) =~= x);
        assert(packed(b).take(n) =~= y);
        assert(whole.skip(n) =~= a.last().0@);
        assert(packed(b).skip(n) =~= b.last().0@);
        assert(a.last().0 =~= b.last().0);
        law_packing_is_injective(a.drop_last(), b.drop_last());
        assert(a =~= a.drop_last().push(a.last()));
        assert(b =~= b.drop_last().push(b.last()));
    } else {
        assert(a =~= b);
    }
}

} // verus!
