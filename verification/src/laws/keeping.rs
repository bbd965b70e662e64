//! What is kept in quarantine, version by version, and what is told of it.

use crate::entry::EntryView;
use crate::id::BatchId;
use crate::laws::sourcing::holds_all;
use crate::order::{in_order, lemma_order_facts};
use crate::quarantine::{
    max_stamp, only, versions_in, without, Arrivals, HeldItemView, HeldRowView, HeldState,
    QuarantineView, QuarantinedView,
};
use crate::version::{covers, Vector};
use vstd::prelude::*;

verus! {

/// Whether an item has a version in a list.
pub open spec fn bears(list: Arrivals, batch: BatchId, v: Vector) -> bool {
    exists|i: int| 0 <= i < list.len() && (#[trigger] list[i]).0 == batch && list[i].1.version == v
}

/// What joins a held item: it stands there at its path unless what stands there holds more; it is
/// put behind the versions of that path, under the next arrival number, unless the item has that
/// version there already; no other item, path or denied item changes; and the item is noted.
pub proof fn law_joining_exactly(q: QuarantineView, batch: BatchId, e: EntryView)
    ensures
        !q.items.contains_key(batch) ==> q.joined(batch, e) == q,
        q.items.contains_key(batch) ==> {
            let r = q.joined(batch, e);
            let old = q.items[batch];
            let new = r.items[batch];
            let list = q.list(e.path);
            &&& r.items == q.items.insert(batch, new)
            &&& new == (HeldItemView { entries: new.entries, ..old })
            &&& new.entries == if old.entries.contains_key(e.path) && !holds_all(
                e.version,
                old.entries[e.path].version,
            ) {
                old.entries
            } else {
                old.entries.insert(e.path, e)
            }
            &&& r.denied == q.denied
            &&& r.changed == q.changed.insert((batch, HeldState::Held))
            &&& bears(list, batch, e.version) ==> r.versions == q.versions && r.arrivals
                == q.arrivals
            &&& !bears(list, batch, e.version) ==> {
                &&& q.arrivals < u64::MAX ==> r.arrivals == q.arrivals + 1
                &&& r.versions == q.versions.insert(
                    e.path,
                    list.push(
                        (
                            batch,
                            QuarantinedView {
                                version: e.version,
                                stamp: e.stamp,
                                arrival: r.arrivals,
                            },
                        ),
                    ),
                )
            }
        },
{
    if q.items.contains_key(batch) {
        let old = q.items[batch];
        let r = q.joined(batch, e);
        assert(covers(e.version, old.entries[e.path].version) <==> holds_all(
            e.version,
            old.entries[e.path].version,
        ));
        assert(q.items.insert(batch, old) =~= q.items);
        assert(r.items =~= q.items.insert(batch, r.items[batch]));
    }
}

/// The versions of a list that belong to an item.
pub open spec fn belonging(list: Arrivals, batch: BatchId) -> Seq<QuarantinedView> {
    list.filter(|x: (BatchId, QuarantinedView)| x.0 == batch).map_values(
        |x: (BatchId, QuarantinedView)| x.1,
    )
}

proof fn lemma_filters(list: Arrivals, batch: BatchId)
    ensures
        without(list, batch) == list.filter(|x: (BatchId, QuarantinedView)| x.0 != batch),
        only(list, batch) == belonging(list, batch),
    decreases list.len(),
{
    reveal(Seq::filter);
    let f = |x: (BatchId, QuarantinedView)| x.0 == batch;
    let g = |x: (BatchId, QuarantinedView)| x.1;
    if list.len() > 0 {
        let t = list.drop_last();
        lemma_filters(t, batch);
        if f(list.last()) {
            assert(t.filter(f).push(list.last()).map_values(g) =~= t.filter(f).map_values(g).push(
                list.last().1,
            ));
        }
    } else {
        assert(list.filter(f).map_values(g) =~= only(list, batch));
    }
}

/// A released item is gone, with every version that it had at its paths; versions of other items
/// stay, in their order; a path without any is gone too; and the item is noted.
pub proof fn law_releasing_exactly(q: QuarantineView, batch: BatchId, p: Seq<u8>)
    requires
        q.items.contains_key(batch),
    ensures
        ({
            let r = q.released(batch);
            let others = q.list(p).filter(|x: (BatchId, QuarantinedView)| x.0 != batch);
            &&& r.items == q.items.remove(batch)
            &&& r.denied == q.denied
            &&& r.arrivals == q.arrivals
            &&& r.changed == q.changed.insert((batch, HeldState::Held))
            &&& q.items[batch].entries.contains_key(p) ==> r.list(p) == others && (
            r.versions.contains_key(p) <==> others.len() > 0)
            &&& !q.items[batch].entries.contains_key(p) ==> r.list(p) == q.list(p)
                && r.versions.contains_key(p) == q.versions.contains_key(p)
        }),
{
    lemma_filters(q.list(p), batch);
    lemma_filters(Seq::empty(), batch);
    reveal(Seq::filter);
    assert(q.items[batch].entries.dom().contains(p) <==> q.items[batch].entries.contains_key(p));
}

/// A denied item is gone like a released one, but it is kept, under the next arrival number, with
/// everything it held: its entries, and at each of their paths its versions in their order.
pub proof fn law_denying_exactly(q: QuarantineView, batch: BatchId, p: Seq<u8>)
    requires
        q.items.contains_key(batch),
        q.arrivals < u64::MAX,
    ensures
        ({
            let r = q.denial(batch);
            let at = (q.arrivals + 1) as u64;
            let row = r.denied[at];
            &&& r.items == q.items.remove(batch)
            &&& r.versions == q.released(batch).versions
            &&& r.arrivals == at
            &&& r.denied == q.denied.insert(at, row)
            &&& row.item == q.items[batch]
            &&& row.versions.contains_key(p) <==> q.items[batch].entries.contains_key(p)
            &&& q.items[batch].entries.contains_key(p) ==> row.versions[p] == belonging(
                q.list(p),
                batch,
            )
            &&& r.changed == q.changed.insert((batch, HeldState::Held)).insert(
                (batch, HeldState::Denied { at }),
            )
        }),
{
    lemma_filters(q.list(p), batch);
}

/// Once the denials are final nothing is kept for a revert any more, and every item that was is
/// noted; what is held stays.
pub proof fn law_denials_become_final(q: QuarantineView, at: u64)
    ensures
        ({
            let r = q.forgotten();
            &&& r == (QuarantineView { denied: r.denied, changed: r.changed, ..q })
            &&& r.denied.dom() =~= Set::empty()
            &&& q.changed.subset_of(r.changed)
            &&& q.denied.contains_key(at) ==> r.changed.contains(
                (q.denied[at].item.batch, HeldState::Denied { at }),
            )
        }),
{
}

/// The largest stamp of a list is one of its stamps, and none is larger; only an empty list has
/// none.
pub proof fn law_largest_stamp(list: Arrivals)
    ensures
        match max_stamp(list) {
            Some(m) => (exists|i: int| 0 <= i < list.len() && (#[trigger] list[i]).1.stamp == m)
                && forall|i: int| 0 <= i < list.len() ==> (#[trigger] list[i]).1.stamp <= m,
            None => list.len() == 0,
        },
        versions_in(list).len() == list.len(),
        forall|i: int|
            0 <= i < list.len() ==> #[trigger] versions_in(list)[i] == list[i].1.version,
    decreases list.len(),
{
    if list.len() > 0 {
        let t = list.drop_last();
        let z = list.len() - 1;
        law_largest_stamp(t);
        assert(list[z] == list.last());
        assert forall|i: int| 0 <= i < t.len() implies t[i] == #[trigger] list[i] by {}
        if max_stamp(t) is Some {
            let m = max_stamp(t)->0;
            let i = choose|i: int| 0 <= i < t.len() && (#[trigger] t[i]).1.stamp == m;
            assert(list[i].1.stamp == m);
            assert forall|j: int| 0 <= j < t.len() implies (#[trigger] list[j]).1.stamp <= m by {
                assert(t[j] == list[j]);
            }
        }
    }
}

// ---- what is told -----------------------------------------------------------

/// What is stored of an item: the item with its versions at each of its paths.
pub open spec fn stored(q: QuarantineView, batch: BatchId) -> Option<HeldRowView> {
    if q.items.contains_key(batch) {
        Some(
            HeldRowView {
                item: q.items[batch],
                versions: Map::new(
                    |p: Seq<u8>| q.items[batch].entries.contains_key(p),
                    |p: Seq<u8>| belonging(q.list(p), batch),
                ),
            },
        )
    } else {
        None
    }
}

/// What is told of an item is all that is held of it.
pub proof fn law_rows_hold_everything(q: QuarantineView, batch: BatchId, at: u64)
    ensures
        q.row_at(batch, HeldState::Held) == stored(q, batch),
        q.row_at(batch, HeldState::Denied { at }) == if q.denied.contains_key(at) {
            Some(q.denied[at])
        } else {
            None
        },
{
    if q.items.contains_key(batch) {
        let a = q.row(batch)->0;
        let b = stored(q, batch)->0;
        assert forall|p: Seq<u8>| #[trigger] a.versions.contains_key(p) implies a.versions[p]
            == b.versions[p] by {
            lemma_filters(q.list(p), batch);
        }
        assert(a.versions =~= b.versions);
    }
}

/// Whether every row that differs between two states is noted, and nothing noted is forgotten.
pub open spec fn rows_noted(a: QuarantineView, b: QuarantineView) -> bool {
    &&& a.changed.subset_of(b.changed)
    &&& forall|batch: BatchId, state: HeldState|
        (#[trigger] b.row_at(batch, state)) != a.row_at(batch, state) ==> (match state {
            HeldState::Held => b.changed.contains((batch, state)),
            HeldState::Denied { at } => if b.denied.contains_key(at) {
                b.changed.contains((b.denied[at].item.batch, state))
            } else {
                b.changed.contains((a.denied[at].item.batch, state))
            },
        })
}

proof fn lemma_only_push(list: Arrivals, x: (BatchId, QuarantinedView), other: BatchId)
    requires
        x.0 != other,
    ensures
        only(list.push(x), other) == only(list, other),
{
    assert(list.push(x).drop_last() =~= list);
}

proof fn lemma_only_without(list: Arrivals, batch: BatchId, other: BatchId)
    requires
        batch != other,
    ensures
        only(without(list, batch), other) == only(list, other),
    decreases list.len(),
{
    if list.len() > 0 {
        let t = list.drop_last();
        lemma_only_without(t, batch, other);
        if list.last().0 != batch {
            let w = without(t, batch).push(list.last());
            assert(w.drop_last() =~= without(t, batch));
        }
    }
}

proof fn lemma_row_unchanged(a: QuarantineView, b: QuarantineView, batch: BatchId)
    requires
        a.items.contains_key(batch) == b.items.contains_key(batch),
        a.items.contains_key(batch) ==> a.items[batch] == b.items[batch],
        a.items.contains_key(batch) ==> forall|p: Seq<u8>|
            a.items[batch].entries.contains_key(p) ==> #[trigger] only(a.list(p), batch) == only(
                b.list(p),
                batch,
            ),
    ensures
        a.row(batch) == b.row(batch),
{
    if a.items.contains_key(batch) {
        let x = a.row(batch)->0;
        let y = b.row(batch)->0;
        assert(x.versions =~= y.versions);
    }
}

/// Every row that joining, releasing, denying or making denials final changes is noted, so that
/// what is stored can follow.
pub proof fn law_row_changes_are_noted(q: QuarantineView, batch: BatchId, e: EntryView)
    requires
        q.arrivals < u64::MAX,
        !q.denied.contains_key((q.arrivals + 1) as u64),
        q.items.contains_key(batch) ==> q.items[batch].batch == batch,
    ensures
        rows_noted(q, q.joined(batch, e)),
        rows_noted(q, q.released(batch)),
        rows_noted(q, q.denial(batch)),
        rows_noted(q, q.forgotten()),
{
    if q.items.contains_key(batch) {
        let j = q.joined(batch, e);
        let r = q.released(batch);
        let d = q.denial(batch);
        law_joining_exactly(q, batch, e);
        assert forall|b: BatchId, state: HeldState|
            (#[trigger] j.row_at(b, state)) != q.row_at(b, state) implies (match state {
            HeldState::Held => j.changed.contains((b, state)),
            HeldState::Denied { at } => if j.denied.contains_key(at) {
                j.changed.contains((j.denied[at].item.batch, state))
            } else {
                j.changed.contains((q.denied[at].item.batch, state))
            },
        }) by {
            if state is Held && b != batch {
                assert forall|p: Seq<u8>| q.items[b].entries.contains_key(p) implies #[trigger] only(
                    q.list(p),
                    b,
                ) == only(j.list(p), b) by {
                    if p == e.path && !bears(q.list(e.path), batch, e.version) {
                        lemma_only_push(q.list(p), j.list(p).last(), b);
                        assert(j.list(p) =~= q.list(p).push(j.list(p).last()));
                    }
                }
                lemma_row_unchanged(q, j, b);
            }
        }
        assert forall|b: BatchId| b != batch implies #[trigger] r.row(b) == q.row(b) && d.row(b)
            == q.row(b) by {
            assert forall|p: Seq<u8>| q.items[b].entries.contains_key(p) implies #[trigger] only(
                q.list(p),
                b,
            ) == only(r.list(p), b) by {
                lemma_only_without(q.list(p), batch, b);
            }
            lemma_row_unchanged(q, r, b);
            assert forall|p: Seq<u8>| q.items[b].entries.contains_key(p) implies #[trigger] only(
                q.list(p),
                b,
            ) == only(d.list(p), b) by {
                assert(d.list(p) == r.list(p));
                lemma_only_without(q.list(p), batch, b);
            }
            lemma_row_unchanged(q, d, b);
        }
        let at = (q.arrivals + 1) as u64;
        assert(d.denied == q.denied.insert(at, q.row(batch)->0));
        assert forall|b: BatchId, state: HeldState|
            (#[trigger] r.row_at(b, state)) != q.row_at(b, state) implies (match state {
            HeldState::Held => r.changed.contains((b, state)),
            HeldState::Denied { at } => if r.denied.contains_key(at) {
                r.changed.contains((r.denied[at].item.batch, state))
            } else {
                r.changed.contains((q.denied[at].item.batch, state))
            },
        }) by {
            if state is Held && b != batch {
                assert(r.row(b) == q.row(b));
            }
        }
        assert forall|b: BatchId, state: HeldState|
            (#[trigger] d.row_at(b, state)) != q.row_at(b, state) implies (match state {
            HeldState::Held => d.changed.contains((b, state)),
            HeldState::Denied { at } => if d.denied.contains_key(at) {
                d.changed.contains((d.denied[at].item.batch, state))
            } else {
                d.changed.contains((q.denied[at].item.batch, state))
            },
        }) by {
            if state is Held && b != batch {
                assert(r.row(b) == q.row(b));
            }
        }
    }
    let g = q.forgotten();
    assert forall|b: BatchId, state: HeldState|
        (#[trigger] g.row_at(b, state)) != q.row_at(b, state) implies (match state {
        HeldState::Held => g.changed.contains((b, state)),
        HeldState::Denied { at } => if g.denied.contains_key(at) {
            g.changed.contains((g.denied[at].item.batch, state))
        } else {
            g.changed.contains((q.denied[at].item.batch, state))
        },
    }) by {
        if state is Held {
            lemma_row_unchanged(q, g, b);
        }
    }
}

/// Whether what another item holds is the same in two states, and nothing noted is forgotten.
spec fn others_stay(a: QuarantineView, b: QuarantineView, batch: BatchId) -> bool {
    &&& a.changed.subset_of(b.changed)
    &&& a.denied == b.denied
    &&& forall|c: BatchId, p: Seq<u8>|
        c != batch ==> #[trigger] only(b.list(p), c) == only(a.list(p), c)
    &&& forall|c: BatchId|
        c != batch ==> (#[trigger] b.items.contains_key(c)) == a.items.contains_key(c)
            && b.items[c] == a.items[c]
}

proof fn lemma_recorded_stays(
    q: QuarantineView,
    path: Seq<u8>,
    version: Vector,
    stamp: i64,
    batch: BatchId,
)
    ensures
        others_stay(q, q.recorded(path, version, stamp, batch), batch),
{
    let r = q.recorded(path, version, stamp, batch);
    assert forall|c: BatchId, p: Seq<u8>| c != batch implies #[trigger] only(r.list(p), c) == only(
        q.list(p),
        c,
    ) by {
        if p == path && r.versions != q.versions {
            assert(r.list(p).drop_last() =~= q.list(p));
        }
    }
}

proof fn lemma_recorded_all_stays(
    q: QuarantineView,
    entries: Map<Seq<u8>, EntryView>,
    ks: Seq<Seq<u8>>,
    batch: BatchId,
)
    ensures
        others_stay(q, q.recorded_all(entries, ks, batch), batch),
    decreases ks.len(),
{
    if ks.len() > 0 {
        lemma_recorded_all_stays(q, entries, ks.drop_last(), batch);
        let e = entries[ks.last()];
        lemma_recorded_stays(
            q.recorded_all(entries, ks.drop_last(), batch),
            e.path,
            e.version,
            e.stamp,
            batch,
        );
    }
}

proof fn lemma_joined_all_stays(
    q: QuarantineView,
    entries: Map<Seq<u8>, EntryView>,
    ks: Seq<Seq<u8>>,
    batch: BatchId,
)
    ensures
        others_stay(q, q.joined_all(entries, ks, batch), batch),
        q.joined_all(entries, ks, batch).items.contains_key(batch) == q.items.contains_key(batch),
        q.items.contains_key(batch) && ks.len() > 0 ==> q.joined_all(
            entries,
            ks,
            batch,
        ).changed.contains((batch, HeldState::Held)),
    decreases ks.len(),
{
    if ks.len() > 0 {
        lemma_joined_all_stays(q, entries, ks.drop_last(), batch);
        let m = q.joined_all(entries, ks.drop_last(), batch);
        let e = entries[ks.last()];
        let r = m.recorded(e.path, e.version, e.stamp, batch);
        lemma_recorded_stays(m, e.path, e.version, e.stamp, batch);
        let j = m.joined(batch, e);
        if m.items.contains_key(batch) {
            assert forall|c: BatchId, p: Seq<u8>| c != batch implies #[trigger] only(
                j.list(p),
                c,
            ) == only(q.list(p), c) by {
                assert(j.list(p) == r.list(p));
                assert(only(r.list(p), c) == only(m.list(p), c));
                assert(only(m.list(p), c) == only(q.list(p), c));
            }
        }
    }
}

/// Holding an item changes what is stored of no other, and is noted; so is every denied item that
/// is put back.
pub proof fn law_holding_is_noted(
    q: QuarantineView,
    item: HeldItemView,
    other: BatchId,
    at: u64,
)
    requires
        item.entries.dom().finite(),
        q.denied.dom().finite(),
    ensures
        ({
            let r = q.held(item);
            &&& q.changed.subset_of(r.changed)
            &&& r.denied == q.denied
            &&& other != item.batch ==> r.row_at(other, HeldState::Held) == q.row_at(
                other,
                HeldState::Held,
            )
            &&& !q.items.contains_key(item.batch) || item.entries.dom().len() > 0
                ==> r.changed.contains((item.batch, HeldState::Held))
        }),
        q.denied.contains_key(at) ==> q.all_returned().changed.contains(
            (q.denied[at].item.batch, HeldState::Denied { at }),
        ),
{
    let ks = in_order(item.entries.dom());
    lemma_order_facts(item.entries.dom());
    lemma_recorded_all_stays(q, item.entries, ks, item.batch);
    lemma_joined_all_stays(q, item.entries, ks, item.batch);
    let r = q.held(item);
    if other != item.batch {
        let m = q.recorded_all(item.entries, ks, item.batch);
        assert forall|p: Seq<u8>| q.items[other].entries.contains_key(p) implies #[trigger] only(
            q.list(p),
            other,
        ) == only(r.list(p), other) by {
            if !q.items.contains_key(item.batch) {
                assert(r.list(p) == m.list(p));
                assert(only(m.list(p), other) == only(q.list(p), other));
            }
        }
        assert(q.items.contains_key(other) == r.items.contains_key(other)) by {
            assert(m.items.contains_key(other) == q.items.contains_key(other));
        }
        lemma_row_unchanged(q, r, other);
    }
    if q.denied.contains_key(at) {
        let ds = in_order(q.denied.dom());
        lemma_order_facts(q.denied.dom());
        assert(q.denied.dom().contains(at));
        lemma_returned_noted(
            QuarantineView { denied: Map::empty(), ..q },
            q.denied,
            ds,
            at,
        );
    }
}

proof fn lemma_returned_noted(
    q: QuarantineView,
    denied: Map<u64, HeldRowView>,
    ks: Seq<u64>,
    at: u64,
)
    ensures
        q.changed.subset_of(q.returned(denied, ks).changed),
        ks.contains(at) ==> q.returned(denied, ks).changed.contains(
            (denied[at].item.batch, HeldState::Denied { at }),
        ),
    decreases ks.len(),
{
    if ks.len() > 0 {
        let t = ks.drop_last();
        lemma_returned_noted(q, denied, t, at);
        let row = denied[ks.last()];
        let m = q.returned(denied, t).noted(
            row.item.batch,
            HeldState::Denied { at: ks.last() },
        );
        let vs = in_order(row.versions.dom());
        lemma_rows_noted(m, row.versions, vs, row.item.batch);
        let n = m.recorded_rows(row.versions, vs, row.item.batch);
        let es = in_order(row.item.entries.dom());
        lemma_recorded_all_stays(n, row.item.entries, es, row.item.batch);
        lemma_joined_all_stays(n, row.item.entries, es, row.item.batch);
        if ks.contains(at) {
            let i = choose|i: int| 0 <= i < ks.len() && ks[i] == at;
            if i < t.len() {
                assert(t[i] == at);
            }
        }
    }
}

proof fn lemma_rows_noted(
    q: QuarantineView,
    versions: Map<Seq<u8>, Seq<QuarantinedView>>,
    ks: Seq<Seq<u8>>,
    batch: BatchId,
)
    ensures
        q.changed.subset_of(q.recorded_rows(versions, ks, batch).changed),
    decreases ks.len(),
{
    if ks.len() > 0 {
        lemma_rows_noted(q, versions, ks.drop_last(), batch);
        lemma_again_noted(
            q.recorded_rows(versions, ks.drop_last(), batch),
            ks.last(),
            versions[ks.last()],
            batch,
        );
    }
}

proof fn lemma_again_noted(
    q: QuarantineView,
    path: Seq<u8>,
    list: Seq<QuarantinedView>,
    batch: BatchId,
)
    ensures
        q.changed.subset_of(q.recorded_again(path, list, batch).changed),
    decreases list.len(),
{
    if list.len() > 0 {
        lemma_again_noted(q, path, list.drop_last(), batch);
    }
}

} // verus!
