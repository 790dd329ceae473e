//! Laws of the heap's observable behaviour, stated over the multiset
//! abstraction that the public contracts speak of.

use vstd::multiset::Multiset;
use vstd::prelude::*;

verus! {

/// Whether `v` is a smallest element of `m` — the property `find_minimum`
/// and `extract_minimum` promise of their result.
pub open spec fn is_minimum_of(v: u64, m: Multiset<u64>) -> bool {
    m.count(v) > 0 && (forall|x: u64| #[trigger] m.count(x) > 0 ==> v <= x)
}

/// Successive extractions come out in non-decreasing order: an element that
/// is smallest after a minimum was removed is no smaller than that minimum.
/// Chained over a run of `extract_minimum` calls, this is the heap-sort
/// property.
pub proof fn lemma_extraction_monotone(m: Multiset<u64>, a: u64, b: u64)
    requires
        is_minimum_of(a, m),
        is_minimum_of(b, m.remove(a)),
    ensures
        a <= b,
{
    assert(m.remove(a).count(b) > 0);
    assert(m.count(b) > 0);
}

/// After an insert, the minimum is the smaller of the old minimum and the
/// new element: with `insert`'s contract this pins what `find_minimum`
/// returns over any run of inserts.
pub proof fn lemma_insert_minimum(m: Multiset<u64>, v: u64, x: u64)
    requires
        is_minimum_of(v, m),
    ensures
        is_minimum_of(
            if x <= v {
                x
            } else {
                v
            },
            m.insert(x),
        ),
{
    let w = if x <= v {
        x
    } else {
        v
    };
    assert(m.insert(x).count(x) > 0);
    assert(m.insert(x).count(v) > 0);
    assert forall|y: u64| #[trigger] m.insert(x).count(y) > 0 implies w <= y by {
        if y != x {
            assert(m.count(y) > 0);
        }
    }
}

/// A merge holds as many elements as both operands together, and its
/// minimum is the smaller of the two operands' minimums.
pub proof fn lemma_merge_minimum(ma: Multiset<u64>, mb: Multiset<u64>, a: u64, b: u64)
    requires
        is_minimum_of(a, ma),
        is_minimum_of(b, mb),
    ensures
        ma.add(mb).len() == ma.len() + mb.len(),
        is_minimum_of(
            if a <= b {
                a
            } else {
                b
            },
            ma.add(mb),
        ),
{
    let w = if a <= b {
        a
    } else {
        b
    };
    assert(ma.add(mb).count(a) > 0);
    assert forall|y: u64| #[trigger] ma.add(mb).count(y) > 0 implies w <= y by {
        if ma.count(y) > 0 {
            assert(a <= y);
        } else {
            assert(mb.count(y) > 0);
            assert(b <= y);
        }
    }
}

/// Merging with an empty operand changes nothing: the empty side
/// contributes no count and no minimum.
pub proof fn lemma_merge_empty(ma: Multiset<u64>)
    ensures
        ma.add(Multiset::<u64>::empty()) == ma,
{
    assert(ma.add(Multiset::<u64>::empty()) =~= ma);
}

} // verus!
