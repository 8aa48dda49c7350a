use vstd::prelude::*;
use std::cmp::Ordering;

verus! {

/// Byte strings in lexicographic order; a proper prefix comes first.
pub open spec fn bytes_lt(a: Seq<u8>, b: Seq<u8>) -> bool
    decreases a.len(),
{
    if a.len() == 0 {
        b.len() > 0
    } else if b.len() == 0 {
        false
    } else if a[0] != b[0] {
        a[0] < b[0]
    } else {
        bytes_lt(a.drop_first(), b.drop_first())
    }
}

/// No byte string comes before itself.
pub proof fn lemma_bytes_lt_irreflexive(a: Seq<u8>)
    ensures
        !bytes_lt(a, a),
    decreases a.len(),
{
    if a.len() > 0 {
        lemma_bytes_lt_irreflexive(a.drop_first());
    }
}

/// The order on byte strings is transitive.
pub proof fn lemma_bytes_lt_transitive(a: Seq<u8>, b: Seq<u8>, c: Seq<u8>)
    requires
        bytes_lt(a, b),
        bytes_lt(b, c),
    ensures
        bytes_lt(a, c),
    decreases a.len(),
{
    if a.len() > 0 && b.len() > 0 && c.len() > 0 && a[0] == b[0] && b[0] == c[0] {
        lemma_bytes_lt_transitive(a.drop_first(), b.drop_first(), c.drop_first());
    }
}

/// Compares two byte strings in the order of `bytes_lt`.
pub fn compare_bytes(a: &[u8], b: &[u8]) -> (o: Ordering)
    ensures
        o is Less <==> bytes_lt(a@, b@),
        o is Equal <==> a@ == b@,
        o is Greater <==> bytes_lt(b@, a@),
{
    let mut i: usize = 0;
    let n = a.len();
    let m = b.len();
    assert(a@.subrange(0, n as int) =~= a@);
    assert(b@.subrange(0, m as int) =~= b@);
    while i < n && i < m
        invariant
            n == a@.len(),
            m == b@.len(),
            i <= n,
            i <= m,
            a@.subrange(0, i as int) == b@.subrange(0, i as int),
            bytes_lt(a@, b@) == bytes_lt(a@.subrange(i as int, n as int), b@.subrange(i as int, m as int)),
            bytes_lt(b@, a@) == bytes_lt(b@.subrange(i as int, m as int), a@.subrange(i as int, n as int)),
        decreases n - i,
    {
        let ghost sa = a@.subrange(i as int, n as int);
        let ghost sb = b@.subrange(i as int, m as int);
        assert(sa.drop_first() =~= a@.subrange(i + 1, n as int));
        assert(sb.drop_first() =~= b@.subrange(i + 1, m as int));
        if a[i] < b[i] {
            assert(a@[i as int] != b@[i as int]);
            return Ordering::Less;
        }
        if a[i] > b[i] {
            assert(a@[i as int] != b@[i as int]);
            return Ordering::Greater;
        }
        assert(a@.subrange(0, i + 1) =~= a@.subrange(0, i as int).push(a@[i as int]));
        assert(b@.subrange(0, i + 1) =~= b@.subrange(0, i as int).push(b@[i as int]));
        i = i + 1;
    }
    if i == n && i == m {
        assert(a@ =~= a@.subrange(0, i as int));
        assert(b@ =~= b@.subrange(0, i as int));
        Ordering::Equal
    } else if i == n {
        assert(a@.len() != b@.len());
        Ordering::Less
    } else {
        assert(a@.len() != b@.len());
        Ordering::Greater
    }
}

} // verus!
