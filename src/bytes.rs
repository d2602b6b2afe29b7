//! Big-endian integer fields and the byte order of entry names.
use vstd::prelude::*;

verus! {

/// The four bytes of `v`, most significant first.
pub open spec fn be32(v: u32) -> Seq<u8> {
    seq![(v >> 24u32) as u8, (v >> 16u32) as u8, (v >> 8u32) as u8, v as u8]
}

/// The big-endian integer held by the four bytes of `s` at `at`.
pub open spec fn be32_at(s: Seq<u8>, at: int) -> u32 {
    ((s[at] as u32) << 24u32) | ((s[at + 1] as u32) << 16u32) | ((s[at + 2] as u32) << 8u32) | (
    s[at + 3] as u32)
}

pub proof fn lemma_be32_round_trip(s: Seq<u8>, at: int, v: u32)
    requires
        0 <= at,
        at + 4 <= s.len(),
        s.subrange(at, at + 4) == be32(v),
    ensures
        be32_at(s, at) == v,
{
    assert(s[at] == s.subrange(at, at + 4)[0]);
    assert(s[at + 1] == s.subrange(at, at + 4)[1]);
    assert(s[at + 2] == s.subrange(at, at + 4)[2]);
    assert(s[at + 3] == s.subrange(at, at + 4)[3]);
    let b0 = s[at];
    let b1 = s[at + 1];
    let b2 = s[at + 2];
    let b3 = s[at + 3];
    assert(b0 == (v >> 24u32) as u8 && b1 == (v >> 16u32) as u8 && b2 == (v >> 8u32) as u8 && b3
        == v as u8);
    assert(b0 == (v >> 24u32) as u8 && b1 == (v >> 16u32) as u8 && b2 == (v >> 8u32) as u8 && b3
        == v as u8 ==> ((b0 as u32) << 24u32) | ((b1 as u32) << 16u32) | ((b2 as u32) << 8u32) | (
    b3 as u32) == v) by (bit_vector);
}

/// Appends the big-endian bytes of `v`.
pub fn push_be32(out: &mut Vec<u8>, v: u32)
    ensures
        final(out)@ == old(out)@ + be32(v),
{
    out.push((v >> 24u32) as u8);
    out.push((v >> 16u32) as u8);
    out.push((v >> 8u32) as u8);
    out.push(v as u8);
    assert(final(out)@ =~= old(out)@ + be32(v));
}

/// Reads the big-endian integer at `at`.
pub fn read_be32(s: &[u8], at: usize) -> (r: u32)
    requires
        at + 4 <= s@.len(),
    ensures
        r == be32_at(s@, at as int),
{
    ((s[at] as u32) << 24u32) | ((s[at + 1] as u32) << 16u32) | ((s[at + 2] as u32) << 8u32) | (s[at
        + 3] as u32)
}

/// Strict lexicographic order on byte strings: `a` is a proper prefix of
/// `b`, or the first byte where they differ is smaller in `a`.
pub open spec fn lex_lt(a: Seq<u8>, b: Seq<u8>) -> bool {
    exists|k: int| lex_lt_at(a, b, k)
}

/// `a` and `b` agree before `k`, and `k` is where `a` sorts first.
pub open spec fn lex_lt_at(a: Seq<u8>, b: Seq<u8>, k: int) -> bool {
    &&& 0 <= k <= a.len()
    &&& k < b.len()
    &&& a.subrange(0, k) == b.subrange(0, k)
    &&& (k == a.len() || a[k] < b[k])
}

pub proof fn lemma_lex_lt_irreflexive(a: Seq<u8>)
    ensures
        !lex_lt(a, a),
{
}

pub proof fn lemma_lex_lt_transitive(a: Seq<u8>, b: Seq<u8>, c: Seq<u8>)
    requires
        lex_lt(a, b),
        lex_lt(b, c),
    ensures
        lex_lt(a, c),
{
    let k1 = choose|k: int| lex_lt_at(a, b, k);
    let k2 = choose|k: int| lex_lt_at(b, c, k);
    if k1 <= k2 {
        assert forall|i: int| 0 <= i < k1 implies a[i] == c[i] by {
            assert(a.subrange(0, k1)[i] == b.subrange(0, k1)[i]);
            assert(b.subrange(0, k2)[i] == c.subrange(0, k2)[i]);
        }
        assert(a.subrange(0, k1) =~= c.subrange(0, k1));
        if k1 < k2 {
            assert(b.subrange(0, k2)[k1] == c.subrange(0, k2)[k1]);
        }
        assert(lex_lt_at(a, c, k1));
    } else {
        assert forall|i: int| 0 <= i < k2 implies a[i] == c[i] by {
            assert(a.subrange(0, k1)[i] == b.subrange(0, k1)[i]);
            assert(b.subrange(0, k2)[i] == c.subrange(0, k2)[i]);
        }
        assert(a.subrange(0, k2) =~= c.subrange(0, k2));
        assert(a.subrange(0, k1)[k2] == b.subrange(0, k1)[k2]);
        assert(lex_lt_at(a, c, k2));
    }
}

/// How two byte strings compare.
pub enum Cmp {
    Less,
    Equal,
    Greater,
}

/// Compares two byte strings lexicographically.
pub fn compare_bytes(a: &[u8], b: &[u8]) -> (r: Cmp)
    ensures
        r is Less <==> lex_lt(a@, b@),
        r is Equal <==> a@ == b@,
        r is Greater <==> lex_lt(b@, a@),
{
    let mut i: usize = 0;
    while i < a.len() && i < b.len()
        invariant
            i <= a@.len(),
            i <= b@.len(),
            a@.subrange(0, i as int) == b@.subrange(0, i as int),
        decreases a@.len() - i,
    {
        if a[i] != b[i] {
            proof {
                if a[i as int] < b[i as int] {
                    assert(lex_lt_at(a@, b@, i as int));
                    lemma_lex_lt_asym(a@, b@);
                } else {
                    assert(b@.subrange(0, i as int) == a@.subrange(0, i as int));
                    assert(lex_lt_at(b@, a@, i as int));
                    lemma_lex_lt_asym(b@, a@);
                }
            }
            if a[i] < b[i] {
                return Cmp::Less;
            } else {
                return Cmp::Greater;
            }
        }
        proof {
            assert(a@.subrange(0, i + 1) =~= a@.subrange(0, i as int).push(a[i as int]));
            assert(b@.subrange(0, i + 1) =~= b@.subrange(0, i as int).push(b[i as int]));
        }
        i = i + 1;
    }
    if a.len() == b.len() {
        proof {
            assert(a@ =~= a@.subrange(0, i as int));
            assert(b@ =~= b@.subrange(0, i as int));
            lemma_lex_lt_irreflexive(a@);
        }
        Cmp::Equal
    } else if i == a.len() {
        proof {
            assert(a@.subrange(0, i as int) =~= a@);
            assert(lex_lt_at(a@, b@, i as int));
            lemma_lex_lt_asym(a@, b@);
        }
        Cmp::Less
    } else {
        proof {
            assert(b@.subrange(0, i as int) =~= b@);
            assert(b@.subrange(0, i as int) == a@.subrange(0, i as int));
            assert(lex_lt_at(b@, a@, i as int));
            lemma_lex_lt_asym(b@, a@);
        }
        Cmp::Greater
    }
}

pub proof fn lemma_lex_lt_asym(a: Seq<u8>, b: Seq<u8>)
    requires
        lex_lt(a, b),
    ensures
        !lex_lt(b, a),
        a != b,
{
    if lex_lt(b, a) {
        lemma_lex_lt_transitive(a, b, a);
        lemma_lex_lt_irreflexive(a);
    }
}

} // verus!
