//! Lexicographic order on byte sequences, used to keep the store's entries
//! sorted by key.

use vstd::prelude::*;

verus! {

/// Strict lexicographic order on byte sequences.
pub open spec fn bytes_lt(a: Seq<u8>, b: Seq<u8>) -> bool
    decreases a.len(),
{
    if b.len() == 0 {
        false
    } else if a.len() == 0 {
        true
    } else if a[0] != b[0] {
        a[0] < b[0]
    } else {
        bytes_lt(a.drop_first(), b.drop_first())
    }
}

/// Outcome of a three-way comparison.
pub enum Cmp {
    Lt,
    Eq,
    Gt,
}

pub proof fn lemma_bytes_lt_asymmetric(a: Seq<u8>, b: Seq<u8>)
    requires
        bytes_lt(a, b),
    ensures
        !bytes_lt(b, a),
        a != b,
    decreases a.len(),
{
    if a.len() != 0 && b.len() != 0 && a[0] == b[0] {
        lemma_bytes_lt_asymmetric(a.drop_first(), b.drop_first());
        assert(a != b) by {
            if a == b {
                assert(a.drop_first() == b.drop_first());
            }
        }
    }
}

pub proof fn lemma_bytes_lt_transitive(a: Seq<u8>, b: Seq<u8>, c: Seq<u8>)
    requires
        bytes_lt(a, b),
        bytes_lt(b, c),
    ensures
        bytes_lt(a, c),
    decreases a.len(),
{
    if a.len() != 0 && b.len() != 0 && c.len() != 0 && a[0] == b[0] && b[0] == c[0] {
        lemma_bytes_lt_transitive(a.drop_first(), b.drop_first(), c.drop_first());
    }
}

/// A strict extension of a common prefix decides the order at the first
/// differing position.
proof fn lemma_bytes_lt_at(a: Seq<u8>, b: Seq<u8>, i: int)
    requires
        0 <= i < a.len(),
        i < b.len(),
        a.subrange(0, i) == b.subrange(0, i),
        a[i] < b[i],
    ensures
        bytes_lt(a, b),
    decreases i,
{
    if i == 0 {
    } else {
        let pa = a.subrange(0, i);
        let pb = b.subrange(0, i);
        assert(a[0] == b[0]) by {
            assert(pa[0] == a[0]);
            assert(pb[0] == b[0]);
        }
        assert(a.drop_first().subrange(0, i - 1) == b.drop_first().subrange(0, i - 1)) by {
            assert(a.drop_first().subrange(0, i - 1) =~= pa.drop_first());
            assert(b.drop_first().subrange(0, i - 1) =~= pb.drop_first());
        }
        lemma_bytes_lt_at(a.drop_first(), b.drop_first(), i - 1);
    }
}

/// A proper prefix is less than the sequence it begins.
proof fn lemma_bytes_lt_prefix(a: Seq<u8>, b: Seq<u8>)
    requires
        a.len() < b.len(),
        a == b.subrange(0, a.len() as int),
    ensures
        bytes_lt(a, b),
    decreases a.len(),
{
    if a.len() != 0 {
        assert(a[0] == b[0]) by {
            assert(b.subrange(0, a.len() as int)[0] == b[0]);
        }
        assert(a.drop_first() == b.drop_first().subrange(0, a.len() - 1)) by {
            assert(a.drop_first() =~= b.subrange(0, a.len() as int).drop_first());
            assert(b.subrange(0, a.len() as int).drop_first() =~= b.drop_first().subrange(
                0,
                a.len() - 1,
            ));
        }
        lemma_bytes_lt_prefix(a.drop_first(), b.drop_first());
    }
}

/// Three-way comparison of two byte slices in lexicographic order.
pub fn cmp_bytes(a: &[u8], b: &[u8]) -> (c: Cmp)
    ensures
        c is Lt <==> bytes_lt(a@, b@),
        c is Gt <==> bytes_lt(b@, a@),
        c is Eq <==> a@ == b@,
{
    let mut i: usize = 0;
    let a_len = a.len();
    let b_len = b.len();
    while i < a_len && i < b_len
        invariant
            0 <= i <= a_len,
            i <= b_len,
            a_len == a@.len(),
            b_len == b@.len(),
            a@.subrange(0, i as int) == b@.subrange(0, i as int),
        decreases a_len - i,
    {
        let x = a[i];
        let y = b[i];
        if x < y {
            proof {
                lemma_bytes_lt_at(a@, b@, i as int);
                lemma_bytes_lt_asymmetric(a@, b@);
            }
            return Cmp::Lt;
        }
        if y < x {
            proof {
                lemma_bytes_lt_at(b@, a@, i as int);
                lemma_bytes_lt_asymmetric(b@, a@);
            }
            return Cmp::Gt;
        }
        proof {
            assert(a@.subrange(0, i + 1) =~= b@.subrange(0, i + 1));
        }
        i = i + 1;
    }
    if a_len < b_len {
        proof {
            assert(a@ =~= b@.subrange(0, a@.len() as int));
            lemma_bytes_lt_prefix(a@, b@);
            lemma_bytes_lt_asymmetric(a@, b@);
        }
        Cmp::Lt
    } else if b_len < a_len {
        proof {
            assert(b@ =~= a@.subrange(0, b@.len() as int));
            lemma_bytes_lt_prefix(b@, a@);
            lemma_bytes_lt_asymmetric(b@, a@);
        }
        Cmp::Gt
    } else {
        proof {
            assert forall|j: int| 0 <= j < a@.len() implies a@[j] == b@[j] by {
                assert(a@.subrange(0, i as int)[j] == b@.subrange(0, i as int)[j]);
            }
            assert(a@ =~= b@);
            if bytes_lt(a@, b@) {
                lemma_bytes_lt_asymmetric(a@, b@);
            }
            if bytes_lt(b@, a@) {
                lemma_bytes_lt_asymmetric(b@, a@);
            }
        }
        Cmp::Eq
    }
}

} // verus!
