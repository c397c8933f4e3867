//! Categorical slot domains: a finite set of labelled values, over which a
//! slot's region is a posterior. Booleans are `["true", "false"]`.
//! (Continuous domains are binned ranges of real numbers and live with the
//! probabilistic engine.)

use vstd::prelude::*;

use crate::error::Error;
use crate::text::{concat3, debug_quoted, debug_str, str_eq};

verus! {

/// The labels as texts.
pub open spec fn labels_view(values: Seq<String>) -> Seq<Seq<char>> {
    values.map_values(|v: String| v@)
}

/// The items of a list as `Debug` writes them, separated by `", "`.
pub open spec fn debug_items(vs: Seq<Seq<char>>) -> Seq<char>
    decreases vs.len(),
{
    if vs.len() == 0 {
        Seq::empty()
    } else if vs.len() == 1 {
        debug_str(vs[0])
    } else {
        debug_items(vs.drop_last()) + ", "@ + debug_str(vs.last())
    }
}

/// A list of strings as `Debug` writes it: `["a", "b"]`.
pub open spec fn debug_list(vs: Seq<Seq<char>>) -> Seq<char> {
    "["@ + debug_items(vs) + "]"@
}

/// `i` is the first position of `v` in `vs`.
pub open spec fn first_index(vs: Seq<Seq<char>>, v: Seq<char>, i: int) -> bool {
    &&& 0 <= i < vs.len()
    &&& vs[i] == v
    &&& forall|j: int| 0 <= j < i ==> vs[j] != v
}

/// No label occurs twice.
pub open spec fn all_distinct(vs: Seq<Seq<char>>) -> bool {
    forall|j: int, k: int| 0 <= j < k < vs.len() ==> #[trigger] vs[j] != #[trigger] vs[k]
}

/// `i` is the first position whose label occurred before it.
pub open spec fn first_repeat(vs: Seq<Seq<char>>, i: int) -> bool {
    &&& 0 <= i < vs.len()
    &&& exists|j: int| 0 <= j < i && vs[j] == vs[i]
    &&& all_distinct(vs.take(i))
}

/// The message for a value that a categorical domain does not have.
pub open spec fn not_in_domain_message(v: Seq<char>, values: Seq<Seq<char>>) -> Seq<char> {
    "value "@ + debug_str(v) + " not in domain "@ + debug_list(values)
}

/// `values` as `Debug` writes a list of strings.
#[verifier::rlimit(30)]
fn debug_values(values: &Vec<String>) -> (s: String)
    ensures
        s@ == debug_list(labels_view(values@)),
{
    let ghost vs = labels_view(values@);
    let mut s = "[".to_owned();
    let mut i: usize = 0;
    proof {
        reveal_strlit("[");
    }
    assert(vs.take(0) =~= Seq::<Seq<char>>::empty());
    while i < values.len()
        invariant
            vs == labels_view(values@),
            i <= values@.len(),
            s@ == "["@ + debug_items(vs.take(i as int)),
        decreases values@.len() - i,
    {
        let q = debug_quoted(values[i].as_str());
        if i > 0 {
            s.append(", ");
        }
        s.append(q.as_str());
        proof {
            let t = vs.take(i + 1);
            assert(t.drop_last() =~= vs.take(i as int));
            assert(t.last() == values@[i as int]@);
            if i == 0 {
                assert(vs.take(0) =~= Seq::<Seq<char>>::empty());
                assert(debug_items(t) == debug_str(t[0]));
            }
        }
        i += 1;
    }
    s.append("]");
    assert(vs.take(values@.len() as int) =~= vs);
    s
}

/// The position of a value in a categorical domain.
pub fn index_of_value(values: &Vec<String>, v: &str) -> (r: Result<usize, Error>)
    ensures
        r matches Ok(i) ==> first_index(labels_view(values@), v@, i as int),
        r is Err <==> !labels_view(values@).contains(v@),
        r matches Err(e) ==> (e matches Error::Invalid(m) && m@ == not_in_domain_message(
            v@,
            labels_view(values@),
        )),
{
    let ghost vs = labels_view(values@);
    let mut i: usize = 0;
    while i < values.len()
        invariant
            vs == labels_view(values@),
            i <= values@.len(),
            forall|j: int| 0 <= j < i ==> vs[j] != v@,
        decreases values@.len() - i,
    {
        if str_eq(values[i].as_str(), v) {
            assert(vs[i as int] == v@);
            assert(vs.contains(v@));
            return Ok(i);
        }
        i += 1;
    }
    let q = debug_quoted(v);
    let l = debug_values(values);
    let head = concat3("value ", q.as_str(), " not in domain ");
    let m = concat3(head.as_str(), l.as_str(), "");
    proof {
        reveal_strlit("");
    }
    assert(m@ =~= not_in_domain_message(v@, vs));
    Err(Error::Invalid(m))
}

/// The domain of a boolean slot.
pub fn boolean_values() -> (values: Vec<String>)
    ensures
        labels_view(values@) == seq!["true"@, "false"@],
{
    let mut values: Vec<String> = Vec::new();
    values.push("true".to_owned());
    values.push("false".to_owned());
    assert(labels_view(values@) =~= seq!["true"@, "false"@]);
    values
}

/// The position of the first label that repeats an earlier one, or the
/// number of labels when all differ.
#[verifier::rlimit(30)]
fn first_duplicate(values: &Vec<String>) -> (i: usize)
    ensures
        i <= values@.len(),
        i < values@.len() ==> first_repeat(labels_view(values@), i as int),
        i == values@.len() ==> all_distinct(labels_view(values@)),
{
    let ghost vs = labels_view(values@);
    let mut i: usize = 0;
    while i < values.len()
        invariant
            vs == labels_view(values@),
            i <= values@.len(),
            all_distinct(vs.take(i as int)),
        decreases values@.len() - i,
    {
        let mut j: usize = 0;
        while j < i
            invariant
                vs == labels_view(values@),
                j <= i < values@.len(),
                all_distinct(vs.take(i as int)),
                forall|k: int| 0 <= k < j ==> vs[k] != vs[i as int],
            decreases i - j,
        {
            if str_eq(values[j].as_str(), values[i].as_str()) {
                assert(vs[j as int] == vs[i as int]);
                assert(first_repeat(vs, i as int));
                return i;
            }
            j += 1;
        }
        let ghost t = vs.take(i + 1);
        assert forall|a: int, b: int| 0 <= a < b < t.len() implies #[trigger] t[a] != #[trigger] t[b] by {
            if b < i {
                assert(vs.take(i as int)[a] != vs.take(i as int)[b]);
            } else {
                assert(vs[a] != vs[i as int]);
            }
        }
        i += 1;
    }
    assert(vs.take(values@.len() as int) =~= vs);
    i
}

/// The message for a categorical domain with fewer than two values.
pub open spec fn too_few_message(slot: Seq<char>) -> Seq<char> {
    "slot "@ + debug_str(slot) + ": categorical domain needs >= 2 values"@
}

/// The message for a categorical domain that names a value twice.
pub open spec fn duplicate_message(slot: Seq<char>, v: Seq<char>) -> Seq<char> {
    "slot "@ + debug_str(slot) + ": duplicate value "@ + debug_str(v)
}

/// A categorical domain needs at least two values, all distinct; the
/// error names the first value that repeats.
pub fn validate_values(slot: &str, values: &Vec<String>) -> (r: Result<(), Error>)
    ensures
        values@.len() < 2 ==> (r matches Err(Error::Invalid(m)) && m@ == too_few_message(slot@)),
        values@.len() >= 2 && all_distinct(labels_view(values@)) ==> r is Ok,
        values@.len() >= 2 && !all_distinct(labels_view(values@)) ==> exists|i: int|
            #[trigger] first_repeat(labels_view(values@), i) && (r matches Err(Error::Invalid(m))
                && m@ == duplicate_message(slot@, values@[i]@)),
{
    let q = debug_quoted(slot);
    if values.len() < 2 {
        let m = concat3("slot ", q.as_str(), ": categorical domain needs >= 2 values");
        return Err(Error::Invalid(m));
    }
    let i = first_duplicate(values);
    if i < values.len() {
        let head = concat3("slot ", q.as_str(), ": duplicate value ");
        let d = debug_quoted(values[i].as_str());
        let m = concat3(head.as_str(), d.as_str(), "");
        proof {
            reveal_strlit("");
        }
        assert(m@ =~= duplicate_message(slot@, values@[i as int]@));
        return Err(Error::Invalid(m));
    }
    Ok(())
}

} // verus!
