//! Vocabulary for sequences of `(first, second)` pairs: the order they are
//! sorted by, what it means to hold no duplicate, and transposition.

use vstd::prelude::*;

verus! {

/// The pair that a stored two-element array stands for.
pub open spec fn pair_of(p: [u64; 2]) -> (u64, u64) {
    (p[0], p[1])
}

/// The pairs that a sequence of stored arrays stands for, in the same order.
pub open spec fn pairs_of(s: Seq<[u64; 2]>) -> Seq<(u64, u64)> {
    Seq::new(s.len(), |i: int| pair_of(s[i]))
}

/// Lexicographic order: by first component, then by second.
pub open spec fn pair_lt(a: (u64, u64), b: (u64, u64)) -> bool {
    a.0 < b.0 || (a.0 == b.0 && a.1 < b.1)
}

/// Every element is strictly below every later one, so the sequence is sorted
/// and no pair occurs twice.
pub open spec fn strictly_sorted(s: Seq<(u64, u64)>) -> bool {
    forall|i: int, j: int| 0 <= i < j < s.len() ==> pair_lt(#[trigger] s[i], #[trigger] s[j])
}

/// `out` is `inp` sorted, with each pair kept once.
pub open spec fn is_distinct_sort_of(out: Seq<(u64, u64)>, inp: Seq<(u64, u64)>) -> bool {
    &&& strictly_sorted(out)
    &&& out.to_set() == inp.to_set()
}

/// The pair with its components exchanged.
pub open spec fn swapped(p: (u64, u64)) -> (u64, u64) {
    (p.1, p.0)
}

/// The relation read in the other direction.
pub open spec fn transposed(r: Set<(u64, u64)>) -> Set<(u64, u64)> {
    Set::new(|p: (u64, u64)| r.contains(swapped(p)))
}

/// A strictly sorted sequence holds no pair twice.
pub proof fn lemma_strictly_sorted_no_duplicates(s: Seq<(u64, u64)>)
    requires
        strictly_sorted(s),
    ensures
        s.no_duplicates(),
{
    assert forall|i: int, j: int| 0 <= i < s.len() && 0 <= j < s.len() && i != j implies s[i]
        != s[j] by {
        if i < j {
            assert(pair_lt(s[i], s[j]));
        } else {
            assert(pair_lt(s[j], s[i]));
        }
    }
}

/// A set of pairs has at most one strictly sorted listing.
pub proof fn lemma_strictly_sorted_unique(a: Seq<(u64, u64)>, b: Seq<(u64, u64)>)
    requires
        strictly_sorted(a),
        strictly_sorted(b),
        a.to_set() == b.to_set(),
    ensures
        a == b,
    decreases a.len(),
{
    if a.len() == 0 {
        if b.len() > 0 {
            assert(b.to_set().contains(b[0]));
            assert(a.contains(b[0]));
        }
        assert(a =~= b);
    } else {
        assert(a.to_set().contains(a.last()));
        assert(b.contains(a.last()));
        let jb = choose|j: int| 0 <= j < b.len() && b[j] == a.last();
        assert(b.to_set().contains(b.last()));
        assert(a.contains(b.last()));
        let ja = choose|j: int| 0 <= j < a.len() && a[j] == b.last();
        // Each last element is the greatest of its sequence, so they coincide.
        if jb < b.len() - 1 {
            assert(pair_lt(b[jb], b[b.len() - 1]));
            if ja < a.len() - 1 {
                assert(pair_lt(a[ja], a[a.len() - 1]));
            }
        }
        assert(a.last() == b.last());
        let a0 = a.drop_last();
        let b0 = b.drop_last();
        assert forall|x: (u64, u64)| a0.to_set().contains(x) implies b0.to_set().contains(x) by {
            let i = choose|i: int| 0 <= i < a0.len() && a0[i] == x;
            assert(a[i] == x);
            assert(pair_lt(a[i], a[a.len() - 1]));
            assert(a.to_set().contains(x));
            assert(b.contains(x));
            let j = choose|j: int| 0 <= j < b.len() && b[j] == x;
            assert(b0[j] == x);
        }
        assert forall|x: (u64, u64)| b0.to_set().contains(x) implies a0.to_set().contains(x) by {
            let i = choose|i: int| 0 <= i < b0.len() && b0[i] == x;
            assert(b[i] == x);
            assert(pair_lt(b[i], b[b.len() - 1]));
            assert(b.to_set().contains(x));
            assert(a.contains(x));
            let j = choose|j: int| 0 <= j < a.len() && a[j] == x;
            assert(a0[j] == x);
        }
        assert(a0.to_set() =~= b0.to_set());
        assert(strictly_sorted(a0));
        assert(strictly_sorted(b0));
        lemma_strictly_sorted_unique(a0, b0);
        assert(a =~= a0.push(a.last()));
        assert(b =~= b0.push(b.last()));
    }
}

} // verus!
