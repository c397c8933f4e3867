//! JOIN: relational predicates between entities, under uncertainty.
//!
//! Every match carries a three-valued `certainty`, the region-containment
//! answer consistent with the `certainly` verb. For a `same` join of two
//! categorical slots, the regions are the sets of labels in each entity's
//! support.

use vstd::prelude::*;

use crate::engine::types::Tri;
use crate::text::str_eq;

verus! {

/// No label occurs twice.
pub open spec fn distinct_labels(labels: Seq<String>) -> bool {
    forall|i: int, j: int|
        0 <= i < labels.len() && 0 <= j < labels.len() && i != j ==> #[trigger] labels[i]@
            != #[trigger] labels[j]@
}

/// The two supports share a label.
pub open spec fn supports_meet(a: Seq<String>, b: Seq<String>) -> bool {
    exists|i: int, j: int| 0 <= i < a.len() && 0 <= j < b.len() && #[trigger] a[i]@ == #[trigger] b[j]@
}

/// Certainty of `left == right` for two categorical supports (each a set
/// of labels): true when both are the same single label, possible when
/// they share a label, false when they are disjoint.
pub fn tri_same(a: &Vec<String>, b: &Vec<String>) -> (t: Tri)
    requires
        distinct_labels(a@),
        distinct_labels(b@),
    ensures
        t == (if a@.len() == 1 && b@.len() == 1 && supports_meet(a@, b@) {
            Tri::True
        } else if supports_meet(a@, b@) {
            Tri::Possible
        } else {
            Tri::False
        }),
{
    let mut intersect = false;
    let mut i: usize = 0;
    while i < a.len() && !intersect
        invariant
            i <= a@.len(),
            intersect ==> supports_meet(a@, b@),
            !intersect ==> forall|x: int, y: int|
                0 <= x < i && 0 <= y < b@.len() ==> #[trigger] a@[x]@ != #[trigger] b@[y]@,
        decreases a@.len() - i,
    {
        let mut j: usize = 0;
        while j < b.len() && !intersect
            invariant
                i < a@.len(),
                j <= b@.len(),
                intersect ==> supports_meet(a@, b@),
                !intersect ==> forall|x: int, y: int|
                    0 <= x < i && 0 <= y < b@.len() ==> #[trigger] a@[x]@ != #[trigger] b@[y]@,
                !intersect ==> forall|y: int| 0 <= y < j ==> a@[i as int]@ != #[trigger] b@[y]@,
            decreases b@.len() - j,
        {
            if str_eq(a[i].as_str(), b[j].as_str()) {
                intersect = true;
                assert(a@[i as int]@ == b@[j as int]@);
            }
            j += 1;
        }
        i += 1;
    }
    if a.len() == 1 && b.len() == 1 && intersect {
        Tri::True
    } else if intersect {
        Tri::Possible
    } else {
        Tri::False
    }
}

} // verus!
