//! Byte-string equality and the byte-wise total order used to sort archive
//! indices.
use vstd::prelude::*;

verus! {

/// Compares two byte vectors for equality of their contents.
pub fn bytes_eq(a: &Vec<u8>, b: &Vec<u8>) -> (r: bool)
    ensures
        r == (a@ == b@),
{
    if a.len() != b.len() {
        assert(a@.len() != b@.len());
        return false;
    }
    let mut i: usize = 0;
    while i < a.len()
        invariant
            i <= a.len(),
            a.len() == b.len(),
            forall|k: int| 0 <= k < i ==> a@[k] == b@[k],
        decreases a.len() - i,
    {
        if a[i] != b[i] {
            return false;
        }
        i += 1;
    }
    proof {
        assert(a@ =~= b@);
    }
    true
}

/// Copies a byte vector.
pub fn copy_bytes(v: &Vec<u8>) -> (r: Vec<u8>)
    ensures
        r@ == v@,
{
    let mut r: Vec<u8> = Vec::new();
    let mut i: usize = 0;
    while i < v.len()
        invariant
            i <= v.len(),
            r@ == v@.subrange(0, i as int),
        decreases v.len() - i,
    {
        r.push(v[i]);
        i += 1;
        proof {
            assert(v@.subrange(0, i - 1).push(v@[i - 1]) =~= v@.subrange(0, i as int));
        }
    }
    proof {
        assert(v@.subrange(0, v@.len() as int) =~= v@);
    }
    r
}

/// Strict byte-wise lexicographic order: either the strings agree up to a
/// position where `a` holds the smaller byte, or `a` is a proper prefix of
/// `b`.
pub open spec fn lex_lt(a: Seq<u8>, b: Seq<u8>) -> bool {
    ||| exists|k: int|
        0 <= k < a.len() && k < b.len() && a.subrange(0, k) == b.subrange(0, k)
            && #[trigger] a[k] < #[trigger] b[k]
    ||| a.len() < b.len() && a == b.subrange(0, a.len() as int)
}

/// The order is asymmetric, and strictly ordered strings differ.
pub proof fn lemma_lex_asym(a: Seq<u8>, b: Seq<u8>)
    requires
        lex_lt(a, b),
    ensures
        !lex_lt(b, a),
        a != b,
{
    if a == b {
        if exists|k: int|
            0 <= k < a.len() && k < b.len() && a.subrange(0, k) == b.subrange(0, k) && #[trigger] a[k]
                < #[trigger] b[k] {
            let k = choose|k: int|
                0 <= k < a.len() && k < b.len() && a.subrange(0, k) == b.subrange(0, k)
                    && #[trigger] a[k] < #[trigger] b[k];
            assert(a[k] < a[k]);
        }
    }
    if lex_lt(b, a) {
        if exists|k: int|
            0 <= k < a.len() && k < b.len() && a.subrange(0, k) == b.subrange(0, k) && #[trigger] a[k]
                < #[trigger] b[k] {
            let k1 = choose|k: int|
                0 <= k < a.len() && k < b.len() && a.subrange(0, k) == b.subrange(0, k)
                    && #[trigger] a[k] < #[trigger] b[k];
            if exists|k: int|
                0 <= k < b.len() && k < a.len() && b.subrange(0, k) == a.subrange(0, k)
                    && #[trigger] b[k] < #[trigger] a[k] {
                let k2 = choose|k: int|
                    0 <= k < b.len() && k < a.len() && b.subrange(0, k) == a.subrange(0, k)
                        && #[trigger] b[k] < #[trigger] a[k];
                if k1 < k2 {
                    assert(b.subrange(0, k2)[k1] == a.subrange(0, k2)[k1]);
                } else if k2 < k1 {
                    assert(a.subrange(0, k1)[k2] == b.subrange(0, k1)[k2]);
                }
            } else {
                assert(b.len() < a.len() && b == a.subrange(0, b.len() as int));
                assert(a.subrange(0, b.len() as int)[k1] == a[k1]);
            }
        } else {
            assert(a.len() < b.len() && a == b.subrange(0, a.len() as int));
            if exists|k: int|
                0 <= k < b.len() && k < a.len() && b.subrange(0, k) == a.subrange(0, k)
                    && #[trigger] b[k] < #[trigger] a[k] {
                let k2 = choose|k: int|
                    0 <= k < b.len() && k < a.len() && b.subrange(0, k) == a.subrange(0, k)
                        && #[trigger] b[k] < #[trigger] a[k];
                assert(b.subrange(0, a.len() as int)[k2] == b[k2]);
            }
        }
    }
}

/// Three-way byte-wise comparison: negative, zero, or positive as `a` is
/// below, equal to, or above `b` in the lexicographic order.
pub fn bytes_cmp(a: &Vec<u8>, b: &Vec<u8>) -> (r: i8)
    ensures
        r == 0 <==> a@ == b@,
        r < 0 <==> lex_lt(a@, b@),
        r > 0 <==> lex_lt(b@, a@),
{
    let n = if a.len() < b.len() {
        a.len()
    } else {
        b.len()
    };
    let mut i: usize = 0;
    while i < n
        invariant
            i <= n,
            n == if a@.len() < b@.len() {
                a@.len()
            } else {
                b@.len()
            },
            forall|k: int| 0 <= k < i ==> a@[k] == b@[k],
        decreases n - i,
    {
        if a[i] < b[i] {
            proof {
                assert(a@.subrange(0, i as int) =~= b@.subrange(0, i as int));
                lemma_lex_asym(a@, b@);
            }
            return -1;
        }
        if a[i] > b[i] {
            proof {
                assert(b@.subrange(0, i as int) =~= a@.subrange(0, i as int));
                lemma_lex_asym(b@, a@);
            }
            return 1;
        }
        i += 1;
    }
    if a.len() == b.len() {
        proof {
            assert(a@ =~= b@);
            if lex_lt(a@, b@) {
                lemma_lex_asym(a@, b@);
            }
            if lex_lt(b@, a@) {
                lemma_lex_asym(b@, a@);
            }
        }
        0
    } else if a.len() < b.len() {
        proof {
            assert(a@ =~= b@.subrange(0, a@.len() as int));
            lemma_lex_asym(a@, b@);
        }
        -1
    } else {
        proof {
            assert(b@ =~= a@.subrange(0, b@.len() as int));
            lemma_lex_asym(b@, a@);
        }
        1
    }
}

} // verus!
