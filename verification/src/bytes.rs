//! Big-endian byte encodings of the fixed-width integers that appear in the
//! hashing preimages, and comparison of 32-byte digests.
use vstd::prelude::*;

verus! {

/// The big-endian 8-byte encoding of a `u64`.
pub open spec fn u64_be(x: u64) -> Seq<u8> {
    seq![
        ((x >> 56) & 0xff) as u8,
        ((x >> 48) & 0xff) as u8,
        ((x >> 40) & 0xff) as u8,
        ((x >> 32) & 0xff) as u8,
        ((x >> 24) & 0xff) as u8,
        ((x >> 16) & 0xff) as u8,
        ((x >> 8) & 0xff) as u8,
        (x & 0xff) as u8,
    ]
}

/// The big-endian 4-byte encoding of a `u32`.
pub open spec fn u32_be(x: u32) -> Seq<u8> {
    seq![
        ((x >> 24) & 0xff) as u8,
        ((x >> 16) & 0xff) as u8,
        ((x >> 8) & 0xff) as u8,
        (x & 0xff) as u8,
    ]
}

/// Appends the big-endian encoding of `x` to `v`.
pub fn push_u64_be(v: &mut Vec<u8>, x: u64)
    ensures
        final(v)@ == old(v)@ + u64_be(x),
{
    let ghost v0 = v@;
    v.push(#[verifier::truncate] ((x >> 56) as u8));
    v.push(#[verifier::truncate] ((x >> 48) as u8));
    v.push(#[verifier::truncate] ((x >> 40) as u8));
    v.push(#[verifier::truncate] ((x >> 32) as u8));
    v.push(#[verifier::truncate] ((x >> 24) as u8));
    v.push(#[verifier::truncate] ((x >> 16) as u8));
    v.push(#[verifier::truncate] ((x >> 8) as u8));
    v.push(#[verifier::truncate] (x as u8));
    proof {
        assert(((x >> 56u64) as u8) == (((x >> 56u64) & 0xff) as u8)) by (bit_vector);
        assert(((x >> 48u64) as u8) == (((x >> 48u64) & 0xff) as u8)) by (bit_vector);
        assert(((x >> 40u64) as u8) == (((x >> 40u64) & 0xff) as u8)) by (bit_vector);
        assert(((x >> 32u64) as u8) == (((x >> 32u64) & 0xff) as u8)) by (bit_vector);
        assert(((x >> 24u64) as u8) == (((x >> 24u64) & 0xff) as u8)) by (bit_vector);
        assert(((x >> 16u64) as u8) == (((x >> 16u64) & 0xff) as u8)) by (bit_vector);
        assert(((x >> 8u64) as u8) == (((x >> 8u64) & 0xff) as u8)) by (bit_vector);
        assert((x as u8) == ((x & 0xff) as u8)) by (bit_vector);
        assert(v@ =~= v0 + u64_be(x));
    }
}

/// Appends the big-endian encoding of `x` to `v`.
pub fn push_u32_be(v: &mut Vec<u8>, x: u32)
    ensures
        final(v)@ == old(v)@ + u32_be(x),
{
    let ghost v0 = v@;
    v.push(#[verifier::truncate] ((x >> 24) as u8));
    v.push(#[verifier::truncate] ((x >> 16) as u8));
    v.push(#[verifier::truncate] ((x >> 8) as u8));
    v.push(#[verifier::truncate] (x as u8));
    proof {
        assert(((x >> 24u32) as u8) == (((x >> 24u32) & 0xff) as u8)) by (bit_vector);
        assert(((x >> 16u32) as u8) == (((x >> 16u32) & 0xff) as u8)) by (bit_vector);
        assert(((x >> 8u32) as u8) == (((x >> 8u32) & 0xff) as u8)) by (bit_vector);
        assert((x as u8) == ((x & 0xff) as u8)) by (bit_vector);
        assert(v@ =~= v0 + u32_be(x));
    }
}

/// Appends every byte of `bytes` to `v`.
pub fn push_bytes(v: &mut Vec<u8>, bytes: &[u8])
    ensures
        final(v)@ == old(v)@ + bytes@,
{
    let ghost v0 = v@;
    let mut i: usize = 0;
    while i < bytes.len()
        invariant
            i <= bytes@.len(),
            v@ == v0 + bytes@.take(i as int),
        decreases bytes@.len() - i,
    {
        v.push(bytes[i]);
        proof {
            assert(bytes@.take(i + 1) =~= bytes@.take(i as int).push(bytes@[i as int]));
        }
        i = i + 1;
    }
    proof {
        assert(bytes@.take(bytes@.len() as int) =~= bytes@);
    }
}

/// Whether two 32-byte digests hold the same bytes.
pub fn digest_eq(a: &[u8; 32], b: &[u8; 32]) -> (r: bool)
    ensures
        r == (a@ == b@),
{
    let mut i: usize = 0;
    while i < 32
        invariant
            i <= 32,
            forall|j: int| 0 <= j < i ==> a@[j] == b@[j],
        decreases 32 - i,
    {
        if a[i] != b[i] {
            return false;
        }
        i = i + 1;
    }
    proof {
        assert(a@ =~= b@);
    }
    true
}

/// Strict lexicographic order on equal-length byte sequences, read left to
/// right; the tie-breaking order of transaction identifiers.
pub open spec fn lex_lt(a: Seq<u8>, b: Seq<u8>) -> bool
    decreases a.len(),
{
    if a.len() == 0 || b.len() == 0 {
        false
    } else if a[0] < b[0] {
        true
    } else if a[0] > b[0] {
        false
    } else {
        lex_lt(a.drop_first(), b.drop_first())
    }
}

/// On equal-length sequences, `lex_lt` together with equality is a trichotomy.
pub proof fn lemma_lex_trichotomy(a: Seq<u8>, b: Seq<u8>)
    requires
        a.len() == b.len(),
    ensures
        lex_lt(a, b) || lex_lt(b, a) || a == b,
    decreases a.len(),
{
    if a.len() != 0 {
        if a[0] == b[0] {
            lemma_lex_trichotomy(a.drop_first(), b.drop_first());
            if a.drop_first() == b.drop_first() {
                assert forall|i: int| 0 <= i < a.len() implies a[i] == b[i] by {
                    if i >= 1 {
                        assert(a[i] == a.drop_first()[i - 1]);
                        assert(b[i] == b.drop_first()[i - 1]);
                    }
                }
                assert(a =~= b);
            }
        }
    } else {
        assert(a =~= b);
    }
}

/// `lex_lt` is irreflexive.
pub proof fn lemma_lex_irreflexive(a: Seq<u8>)
    ensures
        !lex_lt(a, a),
    decreases a.len(),
{
    if a.len() != 0 {
        lemma_lex_irreflexive(a.drop_first());
    }
}

/// Whether digest `a` is lexicographically strictly below digest `b`.
pub fn digest_lt(a: &[u8; 32], b: &[u8; 32]) -> (r: bool)
    ensures
        r == lex_lt(a@, b@),
{
    let mut i: usize = 0;
    proof {
        assert(a@.skip(0) =~= a@);
        assert(b@.skip(0) =~= b@);
    }
    while i < 32
        invariant
            i <= 32,
            forall|j: int| 0 <= j < i ==> a@[j] == b@[j],
            lex_lt(a@, b@) == lex_lt(a@.skip(i as int), b@.skip(i as int)),
        decreases 32 - i,
    {
        if a[i] < b[i] {
            proof {
                lemma_lex_head(a@.skip(i as int), b@.skip(i as int));
            }
            return true;
        }
        if a[i] > b[i] {
            proof {
                lemma_lex_head(a@.skip(i as int), b@.skip(i as int));
            }
            return false;
        }
        proof {
            lemma_lex_head(a@.skip(i as int), b@.skip(i as int));
            assert(a@.skip(i as int).drop_first() =~= a@.skip(i + 1));
            assert(b@.skip(i as int).drop_first() =~= b@.skip(i + 1));
        }
        i = i + 1;
    }
    false
}

/// Unfolds `lex_lt` by one position on non-empty sequences.
proof fn lemma_lex_head(a: Seq<u8>, b: Seq<u8>)
    requires
        a.len() > 0,
        b.len() > 0,
    ensures
        lex_lt(a, b) == if a[0] < b[0] {
            true
        } else if a[0] > b[0] {
            false
        } else {
            lex_lt(a.drop_first(), b.drop_first())
        },
{
}

} // verus!
