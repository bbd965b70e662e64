//! Convergence: machines that know of the same changes hold the same record.
//!
//! A history names, for one path, the entry that each node's each change made. A record is
//! faithful to a history if its fields are those of the change that ranks highest among the
//! changes that its vector covers. Local changes and merges keep records faithful, and two
//! faithful records under one vector are one and the same: what a record is depends on its vector
//! alone, in whatever order the changes arrived.

use crate::batch::classified;
use crate::conflict::{
    claim, law_resolution_symmetric, law_winner_symmetric, merged_of, residue, resolved, winner_of,
    Side,
};
use crate::entry::{ContentHash, EntryView, Observed};
use crate::id::NodeId;
use crate::index::{join_all, IndexView};
use crate::order::Ordered;
use crate::version::{
    counter_of, covers, join, law_merge_commutative, raise, relation, Relation, Vector,
};
use vstd::prelude::*;

verus! {

/// The entry that each node's each change of a path made.
pub type History = Map<(NodeId, int), EntryView>;

/// What ranks an entry: its claim, then its residue.
pub open spec fn rank(e: EntryView) -> (
    (i64, (bool, (bool, (i64, NodeId)))),
    (ContentHash, (u8, (bool, (u64, (ContentHash, (Seq<u8>, i64)))))),
) {
    (claim(e), residue(e))
}

/// Whether a change is among those that a vector covers.
pub open spec fn within(v: Vector, n: NodeId, k: int) -> bool {
    1 <= k <= counter_of(v, n)
}

/// Whether an entry has the fields of a change, under whatever vector.
pub open spec fn has_fields(e: EntryView, x: EntryView) -> bool {
    e == (EntryView { version: e.version, ..x })
}

/// Whether an entry's fields are those of the highest ranking change that its vector covers.
pub open spec fn faithful(h: History, e: EntryView) -> bool {
    &&& exists|n: NodeId, k: int| #[trigger] within(e.version, n, k) && has_fields(e, h[(n, k)])
    &&& forall|n: NodeId, k: int| #[trigger]
        within(e.version, n, k) ==> h[(n, k)].path == e.path && !rank(e).before(rank(h[(n, k)]))
}

/// What becomes of a record when another version arrives: the one that dominates, or the merge.
pub open spec fn absorbed(local: EntryView, incoming: EntryView) -> EntryView {
    match relation(incoming.version, local.version) {
        Relation::Dominates => incoming,
        Relation::Equal => local,
        Relation::Dominated => local,
        Relation::Concurrent => resolved(incoming, local).merged,
    }
}

/// What is applied for an incoming entry is what the record becomes, identical content or not; if
/// nothing is applied, the record stays.
pub proof fn law_classified_is_absorbed(s: IndexView, incoming: EntryView)
    requires
        s.well_formed(),
        s.records.contains_key(incoming.path),
    ensures
        match classified(s, incoming).item {
            Some(item) => item.entry == absorbed(s.records[incoming.path].entry, incoming),
            None => absorbed(s.records[incoming.path].entry, incoming)
                == s.records[incoming.path].entry,
        },
{
}

/// Two machines that hold concurrent versions of a path and hear of each other's arrive at the
/// same entry.
pub proof fn law_both_sides_agree(a: IndexView, b: IndexView, p: Seq<u8>)
    requires
        a.well_formed(),
        b.well_formed(),
        a.records.contains_key(p),
        b.records.contains_key(p),
        relation(a.records[p].entry.version, b.records[p].entry.version) == Relation::Concurrent,
    ensures
        ({
            let x = a.records[p].entry;
            let y = b.records[p].entry;
            &&& classified(a, y).item is Some
            &&& classified(b, x).item is Some
            &&& (classified(a, y).item->0).entry == (classified(b, x).item->0).entry
            &&& (classified(a, y).item->0).entry.version == join(x.version, y.version)
        }),
{
    let x = a.records[p].entry;
    let y = b.records[p].entry;
    law_resolution_symmetric(x, y);
    law_classified_is_absorbed(a, y);
    law_classified_is_absorbed(b, x);
    law_merge_commutative(x.version, y.version);
}

/// Absorbing keeps a record faithful.
pub proof fn law_absorbed_faithful(h: History, local: EntryView, incoming: EntryView)
    requires
        faithful(h, local),
        faithful(h, incoming),
        local.path == incoming.path,
    ensures
        faithful(h, absorbed(local, incoming)),
{
    if relation(incoming.version, local.version) == Relation::Concurrent {
        let m = absorbed(local, incoming);
        let (w, l) = if winner_of(incoming, local).side == Side::First {
            (incoming, local)
        } else {
            (local, incoming)
        };
        assert(m == merged_of(w, l));
        law_merge_commutative(incoming.version, local.version);
        let v = join(w.version, l.version);
        assert(m.version == v);
        let (n, k) = choose|n: NodeId, k: int| #[trigger]
            within(w.version, n, k) && has_fields(w, h[(n, k)]);
        assert(within(v, n, k));
        assert(has_fields(m, h[(n, k)]));
        assert(rank(m) == rank(w));
        assert(!rank(w).before(rank(l))) by {
            Ordered::irreflexive(rank(w));
            if rank(w).before(rank(l)) && rank(l).before(rank(w)) {
                Ordered::transitive(rank(w), rank(l), rank(w));
            }
            law_winner_symmetric(incoming, local);
        }
        assert forall|i: NodeId, j: int| #[trigger] within(v, i, j) implies h[(i, j)].path
            == m.path && !rank(m).before(rank(h[(i, j)])) by {
            if within(w.version, i, j) {
            } else {
                assert(within(l.version, i, j));
                let x = rank(h[(i, j)]);
                Ordered::total(rank(w), rank(l));
                Ordered::transitive(rank(l), rank(w), x);
            }
        }
    }
}

/// Two faithful records under one vector are the same record.
pub proof fn law_record_is_its_vector(h: History, a: EntryView, b: EntryView)
    requires
        faithful(h, a),
        faithful(h, b),
        a.version == b.version,
        a.path == b.path,
    ensures
        a == b,
{
    let (n, k) = choose|n: NodeId, k: int| #[trigger]
        within(a.version, n, k) && has_fields(a, h[(n, k)]);
    let (m, j) = choose|m: NodeId, j: int| #[trigger]
        within(b.version, m, j) && has_fields(b, h[(m, j)]);
    assert(within(b.version, n, k));
    assert(within(a.version, m, j));
    assert(rank(h[(n, k)]) == rank(a));
    assert(rank(h[(m, j)]) == rank(b));
    Ordered::total(rank(a), rank(b));
    assert(rank(a) == rank(b));
    assert(a.kind == b.kind);
}

/// Whatever the order in which two further versions arrive, the record ends up the same.
pub proof fn law_arrival_order_does_not_matter(
    h: History,
    local: EntryView,
    x: EntryView,
    y: EntryView,
)
    requires
        faithful(h, local),
        faithful(h, x),
        faithful(h, y),
        local.path == x.path,
        local.path == y.path,
        crate::version::normal(local.version),
        crate::version::normal(x.version),
        crate::version::normal(y.version),
    ensures
        absorbed(absorbed(local, x), y) == absorbed(absorbed(local, y), x),
{
    let a = absorbed(local, x);
    let b = absorbed(local, y);
    law_absorbed_faithful(h, local, x);
    law_absorbed_faithful(h, local, y);
    lemma_absorbed_vector(local, x);
    lemma_absorbed_vector(local, y);
    lemma_absorbed_vector(a, y);
    lemma_absorbed_vector(b, x);
    law_absorbed_faithful(h, a, y);
    law_absorbed_faithful(h, b, x);
    crate::version::law_merge_associative(local.version, x.version, y.version);
    crate::version::law_merge_associative(local.version, y.version, x.version);
    law_merge_commutative(x.version, y.version);
    law_record_is_its_vector(h, absorbed(a, y), absorbed(b, x));
}

/// The vector of what a record becomes is the merge of both vectors.
pub proof fn lemma_absorbed_vector(local: EntryView, incoming: EntryView)
    requires
        crate::version::normal(local.version),
        crate::version::normal(incoming.version),
        local.path == incoming.path,
    ensures
        absorbed(local, incoming).version == join(local.version, incoming.version),
        absorbed(local, incoming).path == local.path,
        crate::version::normal(absorbed(local, incoming).version),
{
    crate::version::lemma_join_normal(local.version, incoming.version);
    law_merge_commutative(local.version, incoming.version);
    match relation(incoming.version, local.version) {
        Relation::Dominates => {
            lemma_join_of_covered(incoming.version, local.version);
        },
        Relation::Equal => {
            lemma_join_of_covered(local.version, incoming.version);
        },
        Relation::Dominated => {
            lemma_join_of_covered(local.version, incoming.version);
        },
        Relation::Concurrent => {},
    }
}

proof fn lemma_join_of_covered(a: Vector, b: Vector)
    requires
        crate::version::normal(a),
        crate::version::normal(b),
        covers(a, b),
    ensures
        join(a, b) == a,
{
    assert forall|n: NodeId| #[trigger] b.contains_key(n) implies a.contains_key(n) by {
        assert(counter_of(a, n) >= counter_of(b, n));
    }
    assert forall|n: NodeId| #[trigger] a.contains_key(n) implies join(a, b)[n] == a[n] by {
        assert(counter_of(a, n) >= counter_of(b, n));
    }
    assert(join(a, b) =~= a);
}

/// A change that ranks above what it replaces, under the vector that it raises, is faithful to the
/// history that names it.
proof fn lemma_step_faithful(h: History, before: EntryView, e: EntryView, own: NodeId)
    requires
        faithful(h, before),
        counter_of(before.version, own) < u64::MAX,
        e.version == raise(before.version, own),
        e.path == before.path,
        e.stamp > before.stamp,
        has_fields(e, h[(own, counter_of(before.version, own) + 1)]),
    ensures
        faithful(h, e),
{
    let c = counter_of(before.version, own) + 1;
    assert(within(e.version, own, c));
    assert forall|n: NodeId, k: int| #[trigger] within(e.version, n, k) implies h[(n, k)].path
        == e.path && !rank(e).before(rank(h[(n, k)])) by {
        if n == own && k == c {
            Ordered::irreflexive(rank(e));
            assert(rank(h[(n, k)]) == rank(e));
        } else {
            assert(within(before.version, n, k));
            let x = rank(h[(n, k)]);
            assert(rank(before).before(rank(e)));
            Ordered::transitive(rank(before), rank(e), x);
        }
    }
}

/// A local observation of a path with a faithful record leaves a faithful record, in the history
/// that names the new change.
pub proof fn law_observation_faithful(h: History, s: IndexView, path: Seq<u8>, o: Observed)
    requires
        s.well_formed(),
        s.records.contains_key(path),
        faithful(h, s.records[path].entry),
        s.differs(path, o),
        counter_of(s.records[path].entry.version, s.own) < u64::MAX,
        s.records[path].entry.stamp < i64::MAX,
        h[(s.own, counter_of(s.records[path].entry.version, s.own) + 1)] == s.observed_entry(
            path,
            o,
        ),
    ensures
        faithful(h, s.observe(path, o).records[path].entry),
{
    lemma_step_faithful(h, s.records[path].entry, s.observed_entry(path, o), s.own);
}

/// A local deletion of a path with a faithful record leaves a faithful tombstone.
pub proof fn law_deletion_faithful(h: History, s: IndexView, path: Seq<u8>, at_ns: i64)
    requires
        s.well_formed(),
        s.live(path) is Some,
        faithful(h, s.records[path].entry),
        counter_of(s.records[path].entry.version, s.own) < u64::MAX,
        s.records[path].entry.stamp < i64::MAX,
        h[(s.own, counter_of(s.records[path].entry.version, s.own) + 1)] == s.tombstone(
            path,
            at_ns,
        ),
    ensures
        faithful(h, s.observe_absent(path, at_ns).records[path].entry),
{
    lemma_step_faithful(h, s.records[path].entry, s.tombstone(path, at_ns), s.own);
}

/// A conflict copy is faithful to the history that names it, whether or not there was a record at
/// its path.
pub proof fn law_copy_faithful(h: History, s: IndexView, path: Seq<u8>, loser: EntryView)
    requires
        s.well_formed(),
        s.records.contains_key(path) ==> faithful(h, s.records[path].entry)
            && s.records[path].entry.stamp < i64::MAX && counter_of(
            s.records[path].entry.version,
            s.own,
        ) < u64::MAX,
        h[(s.own, counter_of(s.version_at(path), s.own) + 1)] == s.copy_entry(path, loser),
    ensures
        faithful(h, s.written(s.copy_entry(path, loser)).records[path].entry),
{
    let e = s.copy_entry(path, loser);
    if s.records.contains_key(path) {
        lemma_step_faithful(h, s.records[path].entry, e, s.own);
    } else {
        assert(within(e.version, s.own, 1));
        assert(has_fields(e, h[(s.own, 1)]));
        assert forall|n: NodeId, k: int| #[trigger] within(e.version, n, k) implies h[(n, k)].path
            == e.path && !rank(e).before(rank(h[(n, k)])) by {
            assert(n == s.own && k == 1);
            Ordered::irreflexive(rank(e));
        }
    }
}

/// The first change of a path is faithful to the history that names it.
pub proof fn law_first_observation_faithful(
    h: History,
    s: IndexView,
    path: Seq<u8>,
    o: Observed,
)
    requires
        !s.records.contains_key(path),
        h[(s.own, 1)] == s.observed_entry(path, o),
    ensures
        faithful(h, s.observe(path, o).records[path].entry),
{
    let e = s.observed_entry(path, o);
    assert(within(e.version, s.own, 1));
    assert(has_fields(e, h[(s.own, 1)]));
    assert forall|n: NodeId, k: int| #[trigger] within(e.version, n, k) implies h[(n, k)].path
        == e.path && !rank(e).before(rank(h[(n, k)])) by {
        assert(n == s.own && k == 1);
        Ordered::irreflexive(rank(e));
    }
}

/// A bump over quarantined versions is faithful to the history that names it, given that the
/// record and the quarantined entries are.
pub proof fn law_bump_faithful(
    h: History,
    s: IndexView,
    path: Seq<u8>,
    held: Seq<EntryView>,
    over_stamp: i64,
    at_ns: i64,
)
    requires
        s.well_formed(),
        held.len() > 0,
        forall|i: int|
            0 <= i < held.len() ==> faithful(h, #[trigger] held[i]) && held[i].path == path
                && held[i].stamp <= over_stamp,
        s.records.contains_key(path) ==> faithful(h, s.records[path].entry)
            && s.records[path].entry.stamp < i64::MAX,
        over_stamp < i64::MAX,
        ({
            let over = Seq::new(held.len(), |i: int| held[i].version);
            let v = join_all(s.version_at(path), over);
            &&& counter_of(v, s.own) < u64::MAX
            &&& h[(s.own, counter_of(v, s.own) + 1)] == s.bumped_entry(
                path,
                over,
                Some(over_stamp),
                at_ns,
            )
        }),
    ensures
        faithful(
            h,
            s.bumped_entry(
                path,
                Seq::new(held.len(), |i: int| held[i].version),
                Some(over_stamp),
                at_ns,
            ),
        ),
{
    let over = Seq::new(held.len(), |i: int| held[i].version);
    let base = s.version_at(path);
    let v = join_all(base, over);
    let e = s.bumped_entry(path, over, Some(over_stamp), at_ns);
    let c = counter_of(v, s.own) + 1;
    assert(within(e.version, s.own, c));
    assert(has_fields(e, h[(s.own, c)]));
    assert forall|n: NodeId, k: int| #[trigger] within(e.version, n, k) implies h[(n, k)].path
        == e.path && !rank(e).before(rank(h[(n, k)])) by {
        if n == s.own && k == c {
            Ordered::irreflexive(rank(e));
        } else {
            assert(within(v, n, k));
            lemma_join_all_within(base, over, n, k);
            let x = rank(h[(n, k)]);
            if within(base, n, k) {
                let r = s.records[path].entry;
                assert(within(r.version, n, k));
                assert(rank(r).before(rank(e)));
                Ordered::transitive(rank(r), rank(e), x);
            } else {
                let i = choose|i: int| 0 <= i < over.len() && within(#[trigger] over[i], n, k);
                assert(faithful(h, held[i]));
                assert(within(held[i].version, n, k));
                assert(rank(held[i]).before(rank(e)));
                Ordered::transitive(rank(held[i]), rank(e), x);
            }
        }
    }
}

/// A change that a merge of vectors covers is covered by one of them.
proof fn lemma_join_all_within(base: Vector, over: Seq<Vector>, n: NodeId, k: int)
    requires
        within(join_all(base, over), n, k),
    ensures
        within(base, n, k) || exists|i: int|
            0 <= i < over.len() && within(#[trigger] over[i], n, k),
    decreases over.len(),
{
    if over.len() > 0 {
        let t = over.drop_last();
        let a = join_all(base, t);
        if within(a, n, k) {
            lemma_join_all_within(base, t, n, k);
            if !within(base, n, k) {
                let i = choose|i: int| 0 <= i < t.len() && within(#[trigger] t[i], n, k);
                assert(within(over[i], n, k));
            }
        } else {
            assert(within(over[over.len() - 1], n, k));
        }
    }
}

} // verus!
