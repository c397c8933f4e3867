//! Decisions of the store that involve no probabilities: whether the
//! coupling graph of the schema has a cycle (in which case belief
//! propagation over it is loopy and runs damped, iterated), how couplings
//! are labelled and found, which evidence records an erasure keeps (GDPR
//! erasure is physical: the log is written anew without them), and what a
//! slot removal reports.

use vstd::prelude::*;

use crate::binlog::{decode_spec, enc_log, fits, law_log_roundtrip};
use crate::model::domain::{first_index, labels_view};
use crate::model::evidence::{records_view, EvidenceRecord, RecordView};
use crate::text::{concat3, str_eq};

verus! {

/// What `Db::remove_slot` took with it.
#[derive(Clone, Copy, Debug)]
pub struct SlotRemoval {
    /// Evidence records physically erased (the log was rewritten).
    pub evidence_erased: usize,
    /// Priors (registry entries and slot defaults) removed with the slot.
    pub priors_removed: usize,
    /// Watches on the slot, removed with it.
    pub watches_removed: usize,
}

// ------------------------------------------------------------ coupling graph

/// A coupling as the pair of slot names it joins.
pub type Edge = (Seq<char>, Seq<char>);

/// The couplings' endpoints as names.
pub open spec fn edges_of(couplings: Seq<(String, String)>) -> Seq<Edge> {
    couplings.map_values(|c: (String, String)| (c.0@, c.1@))
}

/// Some coupling of `e` joins `x` and `y` (in either direction).
pub open spec fn linked(e: Seq<Edge>, x: Seq<char>, y: Seq<char>) -> bool {
    exists|i: int|
        0 <= i < e.len() && ((#[trigger] e[i].0 == x && e[i].1 == y) || (e[i].0 == y && e[i].1
            == x))
}

/// `p` is a walk along the couplings of `e`.
pub open spec fn is_walk(e: Seq<Edge>, p: Seq<Seq<char>>) -> bool {
    &&& p.len() >= 1
    &&& forall|k: int| 0 <= k < p.len() - 1 ==> #[trigger] linked(e, p[k], p[k + 1])
}

/// A walk along the couplings of `e` leads from `x` to `y`.
pub open spec fn connected(e: Seq<Edge>, x: Seq<char>, y: Seq<char>) -> bool {
    exists|p: Seq<Seq<char>>| #[trigger] is_walk(e, p) && p[0] == x && p.last() == y
}

/// Some coupling joins two slots that the couplings before it already
/// connect: the coupling graph is not a forest.
pub open spec fn closes_cycle(e: Seq<Edge>) -> bool {
    exists|i: int| 0 <= i < e.len() && #[trigger] connected(e.take(i), e[i].0, e[i].1)
}

proof fn lemma_connected_refl(e: Seq<Edge>, x: Seq<char>)
    ensures
        connected(e, x, x),
{
    let p = seq![x];
    assert(is_walk(e, p));
}

proof fn lemma_connected_link(e: Seq<Edge>, x: Seq<char>, y: Seq<char>)
    requires
        linked(e, x, y),
    ensures
        connected(e, x, y),
{
    let p = seq![x, y];
    assert forall|k: int| 0 <= k < p.len() - 1 implies #[trigger] linked(e, p[k], p[k + 1]) by {
        assert(k == 0);
    }
    assert(is_walk(e, p));
}

proof fn lemma_connected_sym(e: Seq<Edge>, x: Seq<char>, y: Seq<char>)
    requires
        connected(e, x, y),
    ensures
        connected(e, y, x),
{
    let p = choose|p: Seq<Seq<char>>| #[trigger] is_walk(e, p) && p[0] == x && p.last() == y;
    let q = p.reverse();
    assert forall|k: int| 0 <= k < q.len() - 1 implies #[trigger] linked(e, q[k], q[k + 1]) by {
        let j = p.len() - 2 - k;
        assert(linked(e, p[j], p[j + 1]));
        let i = choose|i: int|
            0 <= i < e.len() && ((#[trigger] e[i].0 == p[j] && e[i].1 == p[j + 1]) || (e[i].0
                == p[j + 1] && e[i].1 == p[j]));
        assert(q[k] == p[j + 1] && q[k + 1] == p[j]);
        assert(0 <= i < e.len() && ((e[i].0 == q[k] && e[i].1 == q[k + 1]) || (e[i].0 == q[k + 1]
            && e[i].1 == q[k])));
    }
    assert(is_walk(e, q));
}

proof fn lemma_connected_trans(e: Seq<Edge>, x: Seq<char>, y: Seq<char>, z: Seq<char>)
    requires
        connected(e, x, y),
        connected(e, y, z),
    ensures
        connected(e, x, z),
{
    let p = choose|p: Seq<Seq<char>>| #[trigger] is_walk(e, p) && p[0] == x && p.last() == y;
    let q = choose|q: Seq<Seq<char>>| #[trigger] is_walk(e, q) && q[0] == y && q.last() == z;
    let r = p + q.skip(1);
    assert forall|k: int| 0 <= k < r.len() - 1 implies #[trigger] linked(e, r[k], r[k + 1]) by {
        if k < p.len() - 1 {
            assert(linked(e, p[k], p[k + 1]));
        } else {
            let j = k - (p.len() - 1);
            assert(linked(e, q[j], q[j + 1]));
            assert(r[k] == q[j]);
            assert(r[k + 1] == q[j + 1]);
        }
    }
    assert(is_walk(e, r));
    if q.len() == 1 {
        assert(r.last() == p.last());
    } else {
        assert(r.last() == q.last());
    }
}

/// Couplings added after `e` keep every connection of `e`.
proof fn lemma_connected_grow(e: Seq<Edge>, f: Seq<Edge>, x: Seq<char>, y: Seq<char>)
    requires
        e.len() <= f.len(),
        f.take(e.len() as int) == e,
        connected(e, x, y),
    ensures
        connected(f, x, y),
{
    let p = choose|p: Seq<Seq<char>>| #[trigger] is_walk(e, p) && p[0] == x && p.last() == y;
    assert forall|k: int| 0 <= k < p.len() - 1 implies #[trigger] linked(f, p[k], p[k + 1]) by {
        assert(linked(e, p[k], p[k + 1]));
        let i = choose|i: int|
            0 <= i < e.len() && ((#[trigger] e[i].0 == p[k] && e[i].1 == p[k + 1]) || (e[i].0
                == p[k + 1] && e[i].1 == p[k]));
        assert(f[i] == e[i]);
    }
    assert(is_walk(f, p));
}

/// A walk that may use one more coupling `(a, b)` either avoids it, or
/// reaches `a` and continues from `b`, or reaches `b` and continues from `a`.
#[verifier::rlimit(30)]
proof fn lemma_walk_split(e: Seq<Edge>, a: Seq<char>, b: Seq<char>, p: Seq<Seq<char>>)
    requires
        is_walk(e.push((a, b)), p),
    ensures
        connected(e, p[0], p.last()) || (connected(e, p[0], a) && connected(e, b, p.last())) || (
        connected(e, p[0], b) && connected(e, a, p.last())),
    decreases p.len(),
{
    let f = e.push((a, b));
    let x = p[0];
    let y = p.last();
    if p.len() == 1 {
        lemma_connected_refl(e, x);
    } else {
        let q = p.drop_last();
        assert forall|k: int| 0 <= k < q.len() - 1 implies #[trigger] linked(f, q[k], q[k + 1]) by {
            assert(linked(f, p[k], p[k + 1]));
        }
        lemma_walk_split(e, a, b, q);
        let z = q.last();
        let m = p.len() - 2;
        assert(linked(f, p[m], p[m + 1]));
        assert(z == p[m] && y == p[m + 1]);
        let i = choose|i: int|
            0 <= i < f.len() && ((#[trigger] f[i].0 == z && f[i].1 == y) || (f[i].0 == y && f[i].1
                == z));
        lemma_connected_refl(e, a);
        lemma_connected_refl(e, b);
        if i < e.len() {
            assert(e[i] == f[i]);
            assert(linked(e, z, y));
            lemma_connected_link(e, z, y);
            if connected(e, x, z) {
                lemma_connected_trans(e, x, z, y);
            } else if connected(e, x, a) && connected(e, b, z) {
                lemma_connected_trans(e, b, z, y);
            } else {
                lemma_connected_trans(e, a, z, y);
            }
        } else if z == a && y == b {
            if connected(e, x, z) {
            } else if connected(e, x, a) && connected(e, b, z) {
            } else {
                assert(connected(e, x, b));
            }
        } else {
            assert(z == b && y == a);
            if connected(e, x, z) {
            } else if connected(e, x, a) && connected(e, b, z) {
            } else {
                assert(connected(e, x, b) && connected(e, a, y));
            }
        }
    }
}

proof fn lemma_connected_split(e: Seq<Edge>, a: Seq<char>, b: Seq<char>, x: Seq<char>, y: Seq<char>)
    requires
        connected(e.push((a, b)), x, y),
    ensures
        connected(e, x, y) || (connected(e, x, a) && connected(e, b, y)) || (connected(e, x, b)
            && connected(e, a, y)),
{
    let p = choose|p: Seq<Seq<char>>| #[trigger] is_walk(e.push((a, b)), p) && p[0] == x && p.last() == y;
    lemma_walk_split(e, a, b, p);
}

/// Without couplings, a slot is connected to itself only.
proof fn lemma_connected_empty(x: Seq<char>, y: Seq<char>)
    requires
        connected(Seq::<Edge>::empty(), x, y),
    ensures
        x == y,
{
    let p = choose|p: Seq<Seq<char>>| #[trigger] is_walk(Seq::<Edge>::empty(), p) && p[0] == x && p.last() == y;
    if p.len() > 1 {
        let k = 0int;
        assert(linked(Seq::<Edge>::empty(), p[k], p[k + 1]));
    }
}

/// The component labels `comp` are exactly the connectivity of `e`.
pub open spec fn labels_components(slots: Seq<String>, comp: Seq<usize>, e: Seq<Edge>) -> bool {
    &&& comp.len() == slots.len()
    &&& forall|u: int, v: int|
        #![trigger comp[u], comp[v]]
        0 <= u < slots.len() && 0 <= v < slots.len() ==> (comp[u] == comp[v] <==> connected(
            e,
            slots[u]@,
            slots[v]@,
        ))
}

/// Merging the components of `a` and `b` labels the connectivity of `e`
/// with the coupling `(a, b)` added.
#[verifier::rlimit(30)]
proof fn lemma_merge(
    slots: Seq<String>,
    old_comp: Seq<usize>,
    new_comp: Seq<usize>,
    e: Seq<Edge>,
    ia: int,
    ib: int,
)
    requires
        labels_components(slots, old_comp, e),
        0 <= ia < slots.len(),
        0 <= ib < slots.len(),
        old_comp[ia] != old_comp[ib],
        new_comp.len() == old_comp.len(),
        forall|w: int|
            0 <= w < old_comp.len() ==> #[trigger] new_comp[w] == (if old_comp[w] == old_comp[ia] {
                old_comp[ib]
            } else {
                old_comp[w]
            }),
    ensures
        labels_components(slots, new_comp, e.push((slots[ia]@, slots[ib]@))),
{
    let a = slots[ia]@;
    let b = slots[ib]@;
    let f = e.push((a, b));
    let ca = old_comp[ia];
    let cb = old_comp[ib];
    assert(f.take(e.len() as int) =~= e);
    assert(f[e.len() as int].0 == a && f[e.len() as int].1 == b);
    assert(linked(f, a, b));
    lemma_connected_link(f, a, b);
    assert forall|u: int, v: int|
        #![trigger new_comp[u], new_comp[v]]
        0 <= u < slots.len() && 0 <= v < slots.len() implies (new_comp[u] == new_comp[v]
        <==> connected(f, slots[u]@, slots[v]@)) by {
        let su = slots[u]@;
        let sv = slots[v]@;
        assert(old_comp[u] == old_comp[u]);
        assert(old_comp[u] == old_comp[ia] <==> connected(e, su, a));
        assert(old_comp[u] == old_comp[ib] <==> connected(e, su, b));
        assert(old_comp[v] == old_comp[ia] <==> connected(e, sv, a));
        assert(old_comp[v] == old_comp[ib] <==> connected(e, sv, b));
        assert(old_comp[u] == old_comp[v] <==> connected(e, su, sv));
        assert(old_comp[ia] == old_comp[v] <==> connected(e, a, sv));
        assert(old_comp[ib] == old_comp[v] <==> connected(e, b, sv));
        if connected(f, su, sv) {
            lemma_connected_split(e, a, b, su, sv);
        }
        if new_comp[u] == new_comp[v] {
            if old_comp[u] == ca && old_comp[v] != ca {
                lemma_connected_grow(e, f, su, a);
                lemma_connected_grow(e, f, b, sv);
                lemma_connected_trans(f, su, a, b);
                lemma_connected_trans(f, su, b, sv);
            } else if old_comp[v] == ca && old_comp[u] != ca {
                lemma_connected_grow(e, f, su, b);
                lemma_connected_grow(e, f, a, sv);
                lemma_connected_sym(f, a, b);
                lemma_connected_trans(f, su, b, a);
                lemma_connected_trans(f, su, a, sv);
            } else {
                lemma_connected_grow(e, f, su, sv);
            }
        }
    }
}

/// Every coupling joins two of the named slots.
pub open spec fn endpoints_known(slots: Seq<String>, couplings: Seq<(String, String)>) -> bool {
    forall|c: int|
        0 <= c < couplings.len() ==> (exists|j: int|
            0 <= j < slots.len() && #[trigger] slots[j]@ == (#[trigger] couplings[c]).0@) && (exists|j: int|
            0 <= j < slots.len() && #[trigger] slots[j]@ == couplings[c].1@)
}

/// The index of a slot name.
fn slot_index(slots: &Vec<String>, name: &str) -> (i: usize)
    requires
        exists|j: int| 0 <= j < slots@.len() && #[trigger] slots@[j]@ == name@,
    ensures
        i < slots@.len(),
        slots@[i as int]@ == name@,
{
    let mut i: usize = 0;
    while i < slots.len()
        invariant
            i <= slots@.len(),
            exists|j: int| 0 <= j < slots@.len() && #[trigger] slots@[j]@ == name@,
            forall|j: int| 0 <= j < i ==> #[trigger] slots@[j]@ != name@,
        decreases slots@.len() - i,
    {
        if str_eq(slots[i].as_str(), name) {
            return i;
        }
        i += 1;
    }
    i
}

/// Whether the couplings between the slots form a cycle (the schema graph
/// is not a forest, so belief propagation over it is loopy). Each coupling
/// joins two named slots; slot names are distinct.
#[verifier::rlimit(30)]
pub fn has_cycle(slots: &Vec<String>, couplings: &Vec<(String, String)>) -> (b: bool)
    requires
        forall|u: int, v: int|
            0 <= u < slots@.len() && 0 <= v < slots@.len() && u != v ==> #[trigger] slots@[u]@
                != #[trigger] slots@[v]@,
        endpoints_known(slots@, couplings@),
    ensures
        b == closes_cycle(edges_of(couplings@)),
{
    let ghost e = edges_of(couplings@);
    let n = slots.len();
    let mut comp: Vec<usize> = Vec::new();
    let mut w: usize = 0;
    while w < n
        invariant
            n == slots@.len(),
            w <= n,
            comp@.len() == w,
            forall|k: int| 0 <= k < w ==> comp@[k] == k,
        decreases n - w,
    {
        comp.push(w);
        w += 1;
    }
    proof {
        assert(e.take(0) =~= Seq::<Edge>::empty());
        assert forall|u: int, v: int|
            #![trigger comp@[u], comp@[v]]
            0 <= u < slots@.len() && 0 <= v < slots@.len() implies (comp@[u] == comp@[v]
            <==> connected(e.take(0), slots@[u]@, slots@[v]@)) by {
            if connected(e.take(0), slots@[u]@, slots@[v]@) {
                lemma_connected_empty(slots@[u]@, slots@[v]@);
            }
            if comp@[u] == comp@[v] {
                lemma_connected_refl(e.take(0), slots@[u]@);
            }
        }
    }
    let mut i: usize = 0;
    while i < couplings.len()
        invariant
            e == edges_of(couplings@),
            n == slots@.len(),
            i <= couplings@.len(),
            labels_components(slots@, comp@, e.take(i as int)),
            forall|j: int|
                0 <= j < i ==> !(#[trigger] connected(e.take(j), e[j].0, e[j].1)),
            endpoints_known(slots@, couplings@),
        decreases couplings@.len() - i,
    {
        assert(couplings@[i as int] == couplings@[i as int]);
        let ia = slot_index(slots, couplings[i].0.as_str());
        let ib = slot_index(slots, couplings[i].1.as_str());
        assert(e[i as int] == (slots@[ia as int]@, slots@[ib as int]@));
        let ca = comp[ia];
        let cb = comp[ib];
        if ca == cb {
            assert(connected(e.take(i as int), e[i as int].0, e[i as int].1));
            return true;
        }
        let ghost old_comp = comp@;
        let mut w: usize = 0;
        while w < n
            invariant
                n == slots@.len(),
                old_comp.len() == n,
                comp@.len() == n,
                w <= n,
                ia < n,
                ib < n,
                ca == old_comp[ia as int],
                cb == old_comp[ib as int],
                forall|k: int|
                    0 <= k < w ==> #[trigger] comp@[k] == (if old_comp[k] == ca {
                        cb
                    } else {
                        old_comp[k]
                    }),
                forall|k: int| w <= k < n ==> #[trigger] comp@[k] == old_comp[k],
            decreases n - w,
        {
            if comp[w] == ca {
                comp.set(w, cb);
            }
            w += 1;
        }
        proof {
            lemma_merge(slots@, old_comp, comp@, e.take(i as int), ia as int, ib as int);
            assert(e.take(i + 1) =~= e.take(i as int).push((slots@[ia as int]@, slots@[ib as int]@)));
        }
        i += 1;
    }
    proof {
        assert forall|j: int| 0 <= j < e.len() implies !(#[trigger] connected(e.take(j), e[j].0, e[j].1)) by {}
    }
    false
}

// ------------------------------------------------------------ couplings by label

/// The label of a coupling: its name when it has one, else `slot_a~slot_b`.
pub fn coupling_label(name: Option<&str>, slot_a: &str, slot_b: &str) -> (l: String)
    ensures
        name matches Some(n) ==> l@ == n@,
        name is None ==> l@ == slot_a@ + "~"@ + slot_b@,
{
    match name {
        Some(n) => n.to_owned(),
        None => concat3(slot_a, "~", slot_b),
    }
}

/// The first position of `label` among the couplings' labels.
pub fn find_label(labels: &Vec<String>, label: &str) -> (r: Option<usize>)
    ensures
        r matches Some(i) ==> first_index(labels_view(labels@), label@, i as int),
        r is None <==> !labels_view(labels@).contains(label@),
{
    let ghost vs = labels_view(labels@);
    let mut i: usize = 0;
    while i < labels.len()
        invariant
            vs == labels_view(labels@),
            i <= labels@.len(),
            forall|j: int| 0 <= j < i ==> vs[j] != label@,
        decreases labels@.len() - i,
    {
        if str_eq(labels[i].as_str(), label) {
            assert(vs[i as int] == label@);
            assert(vs.contains(label@));
            return Some(i);
        }
        i += 1;
    }
    None
}

/// The first coupling that touches `slot` (a slot cannot be removed while
/// a coupling references it).
pub fn first_coupling_on(couplings: &Vec<(String, String)>, slot: &str) -> (r: Option<usize>)
    ensures
        r matches Some(i) ==> i < couplings@.len() && (couplings@[i as int].0@ == slot@
            || couplings@[i as int].1@ == slot@) && forall|j: int|
            0 <= j < i ==> couplings@[j].0@ != slot@ && couplings@[j].1@ != slot@,
        r is None ==> forall|j: int|
            0 <= j < couplings@.len() ==> couplings@[j].0@ != slot@ && couplings@[j].1@ != slot@,
{
    let mut i: usize = 0;
    while i < couplings.len()
        invariant
            i <= couplings@.len(),
            forall|j: int| 0 <= j < i ==> couplings@[j].0@ != slot@ && couplings@[j].1@ != slot@,
        decreases couplings@.len() - i,
    {
        if str_eq(couplings[i].0.as_str(), slot) || str_eq(couplings[i].1.as_str(), slot) {
            return Some(i);
        }
        i += 1;
    }
    None
}

// ------------------------------------------------------------ erasure

/// The records that `forget_source` keeps: those of every other source,
/// in order.
pub open spec fn without_source(rs: Seq<RecordView>, source: Seq<char>) -> Seq<RecordView>
    decreases rs.len(),
{
    if rs.len() == 0 {
        Seq::empty()
    } else {
        let rest = without_source(rs.drop_last(), source);
        if rs.last().source == source {
            rest
        } else {
            rest.push(rs.last())
        }
    }
}

/// The records that `remove_slot` keeps: those about every other slot, in
/// order.
pub open spec fn without_slot(rs: Seq<RecordView>, slot: Seq<char>) -> Seq<RecordView>
    decreases rs.len(),
{
    if rs.len() == 0 {
        Seq::empty()
    } else {
        let rest = without_slot(rs.drop_last(), slot);
        if rs.last().claim.slot() == slot {
            rest
        } else {
            rest.push(rs.last())
        }
    }
}

/// The erasure key of a record: its slot, or its source.
pub open spec fn erasure_key(r: RecordView, by_slot: bool) -> Seq<char> {
    if by_slot {
        r.claim.slot()
    } else {
        r.source
    }
}

/// Keeps the records whose key differs from `name`.
pub open spec fn erased(rs: Seq<RecordView>, name: Seq<char>, by_slot: bool) -> Seq<RecordView> {
    if by_slot {
        without_slot(rs, name)
    } else {
        without_source(rs, name)
    }
}

proof fn lemma_erased_step(rs: Seq<RecordView>, r: RecordView, name: Seq<char>, by_slot: bool)
    ensures
        erased(rs.push(r), name, by_slot) == if erasure_key(r, by_slot) == name {
            erased(rs, name, by_slot)
        } else {
            erased(rs, name, by_slot).push(r)
        },
{
    assert(rs.push(r).drop_last() =~= rs);
}

/// Splits off the records whose key is `name`; returns the others, in
/// order, and how many were dropped.
#[verifier::rlimit(30)]
fn erase_where(records: Vec<EvidenceRecord>, name: &str, by_slot: bool) -> (r: (
    Vec<EvidenceRecord>,
    usize,
))
    ensures
        records_view(r.0@) == erased(records_view(records@), name@, by_slot),
        r.1 == records@.len() - r.0@.len(),
{
    let ghost orig = records_view(records@);
    let n = records.len();
    let mut records = records;
    let mut rev: Vec<EvidenceRecord> = Vec::new();
    while records.len() > 0
        invariant
            orig.len() == n,
            records@.len() + rev@.len() == n,
            records_view(records@) == orig.take(records@.len() as int),
            forall|k: int| 0 <= k < rev@.len() ==> #[trigger] rev@[k]@ == orig[n - 1 - k],
        decreases records@.len(),
    {
        let ghost before = records@;
        let x = records.pop().unwrap();
        proof {
            let k = records@.len() as int;
            assert(x == before[k]);
            assert(records_view(before)[k] == before[k]@);
            assert(orig.take(k + 1)[k] == orig[k]);
            assert(x@ == orig[k]);
            assert(records_view(records@) =~= orig.take(k));
        }
        rev.push(x);
    }
    let mut kept: Vec<EvidenceRecord> = Vec::new();
    let mut j: usize = 0;
    assert(orig.take(0) =~= Seq::<RecordView>::empty());
    assert(records_view(kept@) =~= Seq::<RecordView>::empty());
    while rev.len() > 0
        invariant
            orig.len() == n,
            j + rev@.len() == n,
            forall|k: int| 0 <= k < rev@.len() ==> #[trigger] rev@[k]@ == orig[n - 1 - k],
            records_view(kept@) == erased(orig.take(j as int), name@, by_slot),
            kept@.len() <= j,
        decreases rev@.len(),
    {
        let x = rev.pop().unwrap();
        proof {
            assert(x@ == orig[j as int]);
            lemma_erased_step(orig.take(j as int), orig[j as int], name@, by_slot);
            assert(orig.take(j + 1) =~= orig.take(j as int).push(orig[j as int]));
        }
        let key = if by_slot {
            x.claim.slot()
        } else {
            x.source.as_str()
        };
        if !str_eq(key, name) {
            kept.push(x);
            assert(records_view(kept@) =~= erased(orig.take(j as int), name@, by_slot).push(
                orig[j as int],
            ));
        }
        j += 1;
    }
    assert(orig.take(n as int) =~= orig);
    let dropped = n - kept.len();
    (kept, dropped)
}

/// GDPR erasure: the records of every source but `source`, in order, and
/// how many records of `source` were dropped.
pub fn erase_source(records: Vec<EvidenceRecord>, source: &str) -> (r: (Vec<EvidenceRecord>, usize))
    ensures
        records_view(r.0@) == without_source(records_view(records@), source@),
        records_view(r.0@) == records_view(records@).filter(|x: RecordView| x.source != source@),
        r.1 == records@.len() - r.0@.len(),
{
    proof {
        lemma_without_source_filters(records_view(records@), source@);
    }
    erase_where(records, source, false)
}

/// The records about every slot but `slot`, in order, and how many records
/// about `slot` were dropped.
pub fn erase_slot(records: Vec<EvidenceRecord>, slot: &str) -> (r: (Vec<EvidenceRecord>, usize))
    ensures
        records_view(r.0@) == without_slot(records_view(records@), slot@),
        records_view(r.0@) == records_view(records@).filter(
            |x: RecordView| x.claim.slot() != slot@,
        ),
        r.1 == records@.len() - r.0@.len(),
{
    proof {
        lemma_without_slot_filters(records_view(records@), slot@);
    }
    erase_where(records, slot, true)
}

/// The records that `forget_source` keeps are those of `rs` whose source is
/// not `source`, in order.
pub proof fn lemma_without_source_filters(rs: Seq<RecordView>, source: Seq<char>)
    ensures
        without_source(rs, source) == rs.filter(|x: RecordView| x.source != source),
    decreases rs.len(),
{
    reveal(Seq::filter);
    if rs.len() > 0 {
        lemma_without_source_filters(rs.drop_last(), source);
    }
}

/// The records that `remove_slot` keeps are those of `rs` about a slot
/// other than `slot`, in order.
pub proof fn lemma_without_slot_filters(rs: Seq<RecordView>, slot: Seq<char>)
    ensures
        without_slot(rs, slot) == rs.filter(|x: RecordView| x.claim.slot() != slot),
    decreases rs.len(),
{
    reveal(Seq::filter);
    if rs.len() > 0 {
        lemma_without_slot_filters(rs.drop_last(), slot);
    }
}

#[verifier::rlimit(30)]
proof fn lemma_without_source(rs: Seq<RecordView>, source: Seq<char>)
    ensures
        forall|i: int|
            0 <= i < without_source(rs, source).len() ==> (#[trigger] without_source(
                rs,
                source,
            )[i]).source != source,
        forall|i: int|
            0 <= i < without_source(rs, source).len() ==> rs.contains(
                #[trigger] without_source(rs, source)[i],
            ),
        forall|i: int|
            0 <= i < rs.len() && (#[trigger] rs[i]).source != source ==> without_source(
                rs,
                source,
            ).contains(rs[i]),
    decreases rs.len(),
{
    if rs.len() > 0 {
        let p = rs.drop_last();
        lemma_without_source(p, source);
        let w = without_source(rs, source);
        let wp = without_source(p, source);
        assert forall|i: int| 0 <= i < w.len() implies rs.contains(#[trigger] w[i]) by {
            if i < wp.len() {
                assert(w[i] == wp[i]);
                let k = choose|k: int| 0 <= k < p.len() && p[k] == wp[i];
                assert(rs[k] == p[k]);
            } else {
                assert(w[i] == rs.last());
                assert(rs[rs.len() - 1] == rs.last());
            }
        }
        assert forall|i: int| 0 <= i < rs.len() && (#[trigger] rs[i]).source != source implies w.contains(rs[i]) by {
            if i < p.len() {
                assert(rs[i] == p[i]);
                assert(wp.contains(p[i]));
                let k = choose|k: int| 0 <= k < wp.len() && wp[k] == p[i];
                assert(w[k] == wp[k]);
            } else {
                assert(w[w.len() - 1] == rs.last());
            }
        }
        assert forall|i: int| 0 <= i < w.len() implies (#[trigger] w[i]).source != source by {
            if i < wp.len() {
                assert(w[i] == wp[i]);
            }
        }
    }
}

/// Erasure is physical: once `forget_source` has dropped a source's
/// records and the log is written anew, the log reads back as exactly the
/// records of the other sources, in order — none of the erased source's
/// records survives, and every record of another source does (every string
/// short enough to be stored in full).
pub proof fn law_forgotten_source_leaves_the_log(rs: Seq<RecordView>, source: Seq<char>)
    requires
        forall|i: int| 0 <= i < rs.len() ==> fits(#[trigger] rs[i]),
    ensures
        decode_spec(enc_log(without_source(rs, source))) == Some((without_source(rs, source), 0nat)),
        without_source(rs, source) == rs.filter(|x: RecordView| x.source != source),
        forall|i: int|
            0 <= i < without_source(rs, source).len() ==> (#[trigger] without_source(
                rs,
                source,
            )[i]).source != source,
        forall|i: int|
            0 <= i < rs.len() && (#[trigger] rs[i]).source != source ==> without_source(
                rs,
                source,
            ).contains(rs[i]),
{
    lemma_without_source(rs, source);
    lemma_without_source_filters(rs, source);
    let w = without_source(rs, source);
    assert forall|i: int| 0 <= i < w.len() implies fits(#[trigger] w[i]) by {
        assert(rs.contains(w[i]));
    }
    law_log_roundtrip(w);
}

/// Removing a slot erases its evidence physically: the records kept are
/// exactly those of `rs` about another slot, in order — none about the
/// removed slot survives, every record about another slot does, and the
/// log written anew reads back as those records (every string short enough
/// to be stored in full).
pub proof fn law_removed_slot_leaves_the_log(rs: Seq<RecordView>, slot: Seq<char>)
    requires
        forall|i: int| 0 <= i < rs.len() ==> fits(#[trigger] rs[i]),
    ensures
        without_slot(rs, slot) == rs.filter(|x: RecordView| x.claim.slot() != slot),
        forall|i: int|
            0 <= i < without_slot(rs, slot).len() ==> (#[trigger] without_slot(
                rs,
                slot,
            )[i]).claim.slot() != slot,
        forall|i: int|
            0 <= i < rs.len() && (#[trigger] rs[i]).claim.slot() != slot ==> without_slot(
                rs,
                slot,
            ).contains(rs[i]),
        decode_spec(enc_log(without_slot(rs, slot))) == Some((without_slot(rs, slot), 0nat)),
{
    broadcast use vstd::seq_lib::group_filter_ensures;

    lemma_without_slot_filters(rs, slot);
    let pred = |x: RecordView| x.claim.slot() != slot;
    let w = without_slot(rs, slot);
    assert forall|i: int| 0 <= i < w.len() implies (#[trigger] w[i]).claim.slot() != slot by {
        assert(pred(rs.filter(pred)[i]));
    }
    assert forall|i: int| 0 <= i < rs.len() && (#[trigger] rs[i]).claim.slot() != slot implies w.contains(rs[i]) by {
        assert(pred(rs[i]));
        assert(rs.filter(pred).contains(rs[i]));
    }
    assert forall|i: int| 0 <= i < w.len() implies fits(#[trigger] w[i]) by {
        assert(rs.filter(pred).contains(w[i]));
        rs.lemma_filter_contains_rev(pred, w[i]);
    }
    law_log_roundtrip(w);
}

} // verus!
