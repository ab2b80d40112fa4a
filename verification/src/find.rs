//! The first element of a sequence that has a property.

use vstd::prelude::*;

verus! {

/// Whether position `i` is the first whose element has the property.
pub open spec fn is_first<A>(s: Seq<A>, property: spec_fn(A) -> bool, i: int) -> bool {
    &&& 0 <= i < s.len()
    &&& property(s[i])
    &&& forall|j: int| 0 <= j < i ==> !property(#[trigger] s[j])
}

/// The first position whose element has the property, if there is one.
pub open spec fn first_where<A>(s: Seq<A>, property: spec_fn(A) -> bool) -> Option<int> {
    if exists|i: int| is_first(s, property, i) {
        Some(choose|i: int| is_first(s, property, i))
    } else {
        None
    }
}

pub proof fn lemma_first_found<A>(s: Seq<A>, property: spec_fn(A) -> bool, i: int)
    requires
        is_first(s, property, i),
    ensures
        first_where(s, property) == Some(i),
{
    let k = choose|k: int| is_first(s, property, k);
    assert(is_first(s, property, k));
    if k < i {
        assert(!property(s[k]));
    } else if i < k {
        assert(!property(s[i]));
    }
}

/// No position is found exactly if no element has the property.
pub proof fn lemma_first_where<A>(s: Seq<A>, property: spec_fn(A) -> bool)
    ensures
        match first_where(s, property) {
            Some(i) => is_first(s, property, i),
            None => forall|j: int| 0 <= j < s.len() ==> !property(#[trigger] s[j]),
        },
{
    assert forall|j: int| 0 <= j < s.len() && property(#[trigger] s[j]) implies exists|i: int|
        is_first(s, property, i) by {
        lemma_some_first(s, property, j);
    }
}

proof fn lemma_some_first<A>(s: Seq<A>, property: spec_fn(A) -> bool, j: int)
    requires
        0 <= j < s.len(),
        property(s[j]),
    ensures
        exists|i: int| is_first(s, property, i),
    decreases j,
{
    if forall|k: int| 0 <= k < j ==> !property(#[trigger] s[k]) {
        assert(is_first(s, property, j));
    } else {
        let k = choose|k: int| 0 <= k < j && property(#[trigger] s[k]);
        lemma_some_first(s, property, k);
    }
}

} // verus!
