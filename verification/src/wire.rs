//! Byte-level primitives shared by the key codec and the record codec:
//! big-endian and little-endian integer encodings, a signed-integer
//! encoding, and the lexicographic order on byte strings that the
//! store's iteration order follows.

use vstd::bytes::*;
use vstd::prelude::*;

verus! {

// ---------------------------------------------------------------------------
// Big-endian u64
// ---------------------------------------------------------------------------
/// Big-endian byte encoding of a `u64`: the reverse of the little-endian one.
pub open spec fn u64_be(x: u64) -> Seq<u8> {
    spec_u64_to_le_bytes(x).reverse()
}

/// The value read back from a big-endian 8-byte encoding.
pub open spec fn u64_be_val(s: Seq<u8>) -> u64
    recommends
        s.len() == 8,
{
    spec_u64_from_le_bytes(s.reverse())
}

pub proof fn lemma_u64_be_len(x: u64)
    ensures
        u64_be(x).len() == 8,
{
    lemma_auto_spec_u64_to_from_le_bytes();
}

pub proof fn lemma_u64_be_val(x: u64)
    ensures
        u64_be(x).len() == 8,
        u64_be_val(u64_be(x)) == x,
{
    lemma_auto_spec_u64_to_from_le_bytes();
    assert(u64_be(x).reverse() =~= spec_u64_to_le_bytes(x));
}

/// Distinct values have distinct big-endian encodings.
pub proof fn lemma_u64_be_injective(a: u64, b: u64)
    ensures
        u64_be(a) == u64_be(b) ==> a == b,
{
    lemma_u64_be_val(a);
    lemma_u64_be_val(b);
}

pub fn u64_to_be(x: u64) -> (r: Vec<u8>)
    ensures
        r@ == u64_be(x),
        r@.len() == 8,
{
    proof {
        lemma_u64_be_len(x);
    }
    let le = u64_to_le_bytes(x);
    let mut r: Vec<u8> = Vec::new();
    let mut i: usize = 0;
    while i < 8
        invariant
            le@ == spec_u64_to_le_bytes(x),
            le@.len() == 8,
            i <= 8,
            r@.len() == i,
            forall|j: int| 0 <= j < i ==> r@[j] == le@[7 - j],
        decreases 8 - i,
    {
        r.push(le[7 - i]);
        i = i + 1;
    }
    proof {
        assert(r@ =~= u64_be(x));
    }
    r
}

pub fn u64_from_be(s: &[u8]) -> (r: u64)
    requires
        s@.len() == 8,
    ensures
        r == u64_be_val(s@),
        u64_be(r) == s@,
{
    let mut rev: Vec<u8> = Vec::new();
    let mut i: usize = 0;
    while i < 8
        invariant
            s@.len() == 8,
            i <= 8,
            rev@.len() == i,
            forall|j: int| 0 <= j < i ==> rev@[j] == s@[7 - j],
        decreases 8 - i,
    {
        rev.push(s[7 - i]);
        i = i + 1;
    }
    proof {
        assert(rev@ =~= s@.reverse());
        lemma_auto_spec_u64_to_from_le_bytes();
        assert(spec_u64_to_le_bytes(spec_u64_from_le_bytes(s@.reverse())) == s@.reverse());
        assert(u64_be(u64_be_val(s@)) =~= s@);
    }
    u64_from_le_bytes(rev.as_slice())
}

// ---------------------------------------------------------------------------
// Little-endian u64 (used only for tree-digest keys, matching the hasher's
// native output order on the target) and little-endian u16 (tree entry modes).
// ---------------------------------------------------------------------------
pub open spec fn u64_le(x: u64) -> Seq<u8> {
    spec_u64_to_le_bytes(x)
}

/// The value read back from a little-endian 8-byte encoding.
pub open spec fn u64_le_val(s: Seq<u8>) -> u64
    recommends
        s.len() == 8,
{
    spec_u64_from_le_bytes(s)
}

pub proof fn lemma_u64_le_val_roundtrip(s: Seq<u8>)
    requires
        s.len() == 8,
    ensures
        u64_le(u64_le_val(s)) == s,
{
    lemma_auto_spec_u64_to_from_le_bytes();
}

pub proof fn lemma_u64_le_injective(a: u64, b: u64)
    ensures
        u64_le(a).len() == 8,
        u64_le(b).len() == 8,
        u64_le(a) == u64_le(b) ==> a == b,
{
    lemma_auto_spec_u64_to_from_le_bytes();
}

pub fn u64_to_le(x: u64) -> (r: Vec<u8>)
    ensures
        r@ == u64_le(x),
        r@.len() == 8,
{
    u64_to_le_bytes(x)
}

pub open spec fn u16_le(x: u16) -> Seq<u8> {
    spec_u16_to_le_bytes(x)
}

pub fn u16_to_le(x: u16) -> (r: Vec<u8>)
    ensures
        r@ == u16_le(x),
        r@.len() == 2,
{
    proof {
        lemma_auto_spec_u16_to_from_le_bytes();
    }
    u16_to_le_bytes(x)
}

// ---------------------------------------------------------------------------
// Signed 64-bit encoding: one sign byte, then the big-endian magnitude
// (negative values store `-1 - x` so that the minimum value needs no
// special case).
// ---------------------------------------------------------------------------
pub open spec fn i64_enc(x: i64) -> Seq<u8> {
    if x >= 0 {
        seq![0u8] + u64_be(x as u64)
    } else {
        seq![1u8] + u64_be((-1 - x) as u64)
    }
}

pub proof fn lemma_i64_enc_len(x: i64)
    ensures
        i64_enc(x).len() == 9,
{
    if x >= 0 {
        lemma_u64_be_len(x as u64);
    } else {
        lemma_u64_be_len((-1 - x) as u64);
    }
}

pub fn enc_i64(x: i64, out: &mut Vec<u8>)
    ensures
        final(out)@ == old(out)@ + i64_enc(x),
{
    if x >= 0 {
        out.push(0u8);
        let mut be = u64_to_be(x as u64);
        out.append(&mut be);
        proof {
            assert(out@ =~= old(out)@ + i64_enc(x));
        }
    } else {
        out.push(1u8);
        let mag: u64 = (-1i64 - x) as u64;
        let mut be = u64_to_be(mag);
        out.append(&mut be);
        proof {
            assert(out@ =~= old(out)@ + i64_enc(x));
        }
    }
}

// ---------------------------------------------------------------------------
// Lexicographic order on byte strings: the order in which the store's
// iterators hand entries back.
// ---------------------------------------------------------------------------
pub open spec fn lex_lt(a: Seq<u8>, b: Seq<u8>) -> bool
    decreases a.len(),
{
    if b.len() == 0 {
        false
    } else if a.len() == 0 {
        true
    } else if a[0] < b[0] {
        true
    } else if a[0] > b[0] {
        false
    } else {
        lex_lt(a.skip(1), b.skip(1))
    }
}

/// `p` is a prefix of `k`.
pub open spec fn has_prefix(k: Seq<u8>, p: Seq<u8>) -> bool {
    p.len() <= k.len() && k.take(p.len() as int) == p
}

/// An exec test for the prefix relation.
pub fn starts_with(k: &Vec<u8>, p: &Vec<u8>) -> (r: bool)
    ensures
        r == has_prefix(k@, p@),
{
    if p.len() > k.len() {
        proof {
            assert(!has_prefix(k@, p@));
        }
        return false;
    }
    let mut i: usize = 0;
    while i < p.len()
        invariant
            p@.len() <= k@.len(),
            i <= p@.len(),
            forall|j: int| 0 <= j < i ==> k@[j] == p@[j],
        decreases p@.len() - i,
    {
        if k[i] != p[i] {
            proof {
                assert(k@.take(p@.len() as int)[i as int] != p@[i as int]);
            }
            return false;
        }
        i = i + 1;
    }
    proof {
        assert(k@.take(p@.len() as int) =~= p@);
    }
    true
}

} // verus!
