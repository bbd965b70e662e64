//! Laws of the quarantine.

use crate::entry::EntryView;
use crate::id::BatchId;
use crate::index::next_number;
use crate::order::{
    in_order, increasing, lemma_in_order, lemma_lists_unique, lemma_order_facts,
    lemma_take_contains, lists, Ordered,
};
use crate::quarantine::{
    arrival_keys, by_arrival, first_match, holds_version, only, tagged, without, Arrivals,
    HeldItemView, HeldRowView, HeldState, QuarantineView, QuarantinedView,
};
use crate::version::{covers, Vector};
use vstd::prelude::*;

verus! {

// ---- what always holds ------------------------------------------------------

/// Whether the arrival numbers of a list rise, up to a limit.
pub open spec fn rising(list: Arrivals, limit: u64) -> bool {
    &&& forall|i: int, j: int|
        0 <= i < j < list.len() ==> (#[trigger] list[i]).1.arrival < (#[trigger] list[j]).1.arrival
    &&& forall|i: int| 0 <= i < list.len() ==> (#[trigger] list[i]).1.arrival <= limit
}

/// Whether no item has a version twice in a list.
pub open spec fn unrepeated(list: Arrivals) -> bool {
    forall|i: int, j: int|
        0 <= i < j < list.len() && (#[trigger] list[i]).0 == (#[trigger] list[j]).0
            ==> list[i].1.version != list[j].1.version
}

/// Whether an item is filed as it should be: under its identifier, its entries under their paths.
pub open spec fn item_sound(item: HeldItemView) -> bool {
    &&& item.entries.dom().finite()
    &&& forall|p: Seq<u8>| #[trigger]
        item.entries.contains_key(p) ==> item.entries[p].path == p
}

/// Whether every version at every path belongs to an item that holds the path, or to `spare`.
pub open spec fn owned(q: QuarantineView, spare: Option<BatchId>) -> bool {
    forall|p: Seq<u8>, i: int|
        q.versions.contains_key(p) && 0 <= i < q.versions[p].len() ==> {
            let b = (#[trigger] q.versions[p][i]).0;
            Some(b) == spare || (q.items.contains_key(b) && q.items[b].entries.contains_key(p))
        }
}

/// Whether versions are kept in the order of arrival, none twice for an item, and no list is
/// empty.
pub open spec fn ordered(q: QuarantineView) -> bool {
    &&& q.versions.dom().finite()
    &&& forall|p: Seq<u8>| #[trigger]
        q.versions.contains_key(p) ==> q.versions[p].len() > 0 && rising(
            q.versions[p],
            q.arrivals,
        ) && unrepeated(q.versions[p])
}

/// Whether every entry of every item, other than one, is recorded at its path.
pub open spec fn recorded_but(q: QuarantineView, spare: Option<BatchId>) -> bool {
    forall|b: BatchId, p: Seq<u8>|
        q.items.contains_key(b) && (#[trigger] q.items[b].entries.contains_key(p)) && Some(b)
            != spare ==> holds_version(q.list(p), b, q.items[b].entries[p].version)
}

/// What always holds of a quarantine.
pub open spec fn sound(q: QuarantineView) -> bool {
    &&& q.items.dom().finite()
    &&& q.denied.dom().finite()
    &&& forall|b: BatchId| #[trigger]
        q.items.contains_key(b) ==> q.items[b].batch == b && item_sound(q.items[b])
    &&& ordered(q)
    &&& owned(q, None)
    &&& recorded_but(q, None)
}

/// A new quarantine is sound.
pub proof fn law_initial_sound()
    ensures
        sound(QuarantineView::initial()),
{
}

/// Recording keeps versions in the order of arrival, and what was recorded stays recorded.
proof fn lemma_recorded(
    q: QuarantineView,
    path: Seq<u8>,
    version: Vector,
    stamp: i64,
    batch: BatchId,
)
    requires
        ordered(q),
        owned(q, Some(batch)),
        q.arrivals < u64::MAX,
    ensures
        ({
            let t = q.recorded(path, version, stamp, batch);
            &&& ordered(t)
            &&& owned(t, Some(batch))
            &&& holds_version(t.list(path), batch, version)
            &&& t.items == q.items
            &&& t.denied == q.denied
            &&& t.arrivals <= q.arrivals + 1
            &&& forall|p: Seq<u8>, b: BatchId, v: Vector| #[trigger]
                holds_version(q.list(p), b, v) ==> holds_version(t.list(p), b, v)
        }),
{
    let t = q.recorded(path, version, stamp, batch);
    if !holds_version(q.list(path), batch, version) {
        let old_list = q.list(path);
        let new_list = t.list(path);
        let n = old_list.len() as int;
        assert(new_list[n].0 == batch && new_list[n].1.version == version);
        assert forall|p: Seq<u8>, b: BatchId, v: Vector| #[trigger]
            holds_version(q.list(p), b, v) implies holds_version(t.list(p), b, v) by {
            let i = choose|i: int|
                0 <= i < q.list(p).len() && (#[trigger] q.list(p)[i]).0 == b && q.list(
                    p,
                )[i].1.version == v;
            assert(t.list(p)[i] == q.list(p)[i]);
        }
        assert forall|p: Seq<u8>| #[trigger] t.versions.contains_key(p) implies t.versions[p].len()
            > 0 && rising(t.versions[p], t.arrivals) && unrepeated(t.versions[p]) by {
            law_recorded_once(q, path, version, stamp, batch, p);
            if p == path {
                assert forall|i: int, j: int| 0 <= i < j < new_list.len() implies (
                #[trigger] new_list[i]).1.arrival < (#[trigger] new_list[j]).1.arrival by {
                    if q.versions.contains_key(path) {
                        assert(rising(q.versions[path], q.arrivals));
                    }
                    assert(new_list[i] == old_list[i]);
                    if j < n {
                        assert(new_list[j] == old_list[j]);
                    }
                }
                assert forall|i: int| 0 <= i < new_list.len() implies (
                #[trigger] new_list[i]).1.arrival <= t.arrivals by {
                    if i < n {
                        assert(rising(q.versions[path], q.arrivals));
                        assert(new_list[i] == old_list[i]);
                    }
                }
            } else {
                assert(rising(q.versions[p], q.arrivals));
                assert forall|i: int| 0 <= i < t.versions[p].len() implies (
                #[trigger] t.versions[p][i]).1.arrival <= t.arrivals by {
                    assert(q.versions[p][i].1.arrival <= q.arrivals);
                }
            }
        }
        assert forall|p: Seq<u8>, i: int|
            t.versions.contains_key(p) && 0 <= i < t.versions[p].len() implies {
            let b = (#[trigger] t.versions[p][i]).0;
            Some(b) == Some(batch) || (t.items.contains_key(b) && t.items[b].entries.contains_key(
                p,
            ))
        } by {
            if p == path {
                if i < n {
                    assert(t.versions[p][i] == q.versions[p][i]);
                }
            } else {
                assert(t.versions[p][i] == q.versions[p][i]);
            }
        }
    }
}

/// An entry that joins keeps the quarantine sound.
pub proof fn law_join_sound(q: QuarantineView, batch: BatchId, entry: EntryView)
    requires
        sound(q),
        q.arrivals < u64::MAX,
    ensures
        sound(q.joined(batch, entry)),
        q.items.contains_key(batch) ==> holds_version(
            q.joined(batch, entry).list(entry.path),
            batch,
            entry.version,
        ),
        q.joined(batch, entry).arrivals <= q.arrivals + 1,
{
    if q.items.contains_key(batch) {
        lemma_recorded(q, entry.path, entry.version, entry.stamp, batch);
        let s = q.recorded(entry.path, entry.version, entry.stamp, batch);
        let t = q.joined(batch, entry);
        assert(t.versions == s.versions);
        let item = q.items[batch];
        assert forall|b: BatchId, p: Seq<u8>|
            t.items.contains_key(b) && (#[trigger] t.items[b].entries.contains_key(p)) && Some(b)
                != None::<BatchId> implies holds_version(
            t.list(p),
            b,
            t.items[b].entries[p].version,
        ) by {
            if b == batch && p == entry.path && t.items[b].entries[p] == entry {
            } else {
                assert(q.items[b].entries.contains_key(p));
                assert(holds_version(q.list(p), b, q.items[b].entries[p].version));
                assert(holds_version(s.list(p), b, q.items[b].entries[p].version));
            }
            assert(t.list(p) == s.list(p));
        }
        assert forall|p: Seq<u8>, i: int|
            t.versions.contains_key(p) && 0 <= i < t.versions[p].len() implies {
            let b = (#[trigger] t.versions[p][i]).0;
            Some(b) == None::<BatchId> || (t.items.contains_key(b)
                && t.items[b].entries.contains_key(p))
        } by {
            let x = t.versions[p][i];
            if p == entry.path {
            } else {
                assert(s.versions[p][i].0 == x.0);
                assert(q.versions.contains_key(p) && q.versions[p] == s.versions[p]);
                assert(q.versions[p][i].0 == x.0);
            }
            if p == entry.path && x.0 != batch {
                assert(s.versions[p][i].0 == x.0);
            }
        }
        assert(t.items[batch].batch == batch);
    }
}

proof fn lemma_recorded_all(
    q: QuarantineView,
    entries: Map<Seq<u8>, EntryView>,
    ks: Seq<Seq<u8>>,
    batch: BatchId,
)
    requires
        ordered(q),
        owned(q, Some(batch)),
        q.arrivals + ks.len() <= u64::MAX,
        forall|i: int|
            0 <= i < ks.len() ==> entries.contains_key(#[trigger] ks[i]) && entries[ks[i]].path
                == ks[i],
    ensures
        ({
            let t = q.recorded_all(entries, ks, batch);
            &&& ordered(t)
            &&& owned(t, Some(batch))
            &&& t.items == q.items
            &&& t.denied == q.denied
            &&& t.arrivals <= q.arrivals + ks.len()
            &&& forall|i: int|
                0 <= i < ks.len() ==> holds_version(
                    t.list(#[trigger] ks[i]),
                    batch,
                    entries[ks[i]].version,
                )
            &&& forall|p: Seq<u8>, b: BatchId, v: Vector| #[trigger]
                holds_version(q.list(p), b, v) ==> holds_version(t.list(p), b, v)
        }),
    decreases ks.len(),
{
    if ks.len() > 0 {
        let r = ks.drop_last();
        assert forall|i: int| 0 <= i < r.len() implies entries.contains_key(#[trigger] r[i])
            && entries[r[i]].path == r[i] by {
            assert(entries.contains_key(ks[i]));
        }
        lemma_recorded_all(q, entries, r, batch);
        let s = q.recorded_all(entries, r, batch);
        let e = entries[ks.last()];
        assert(entries.contains_key(ks[ks.len() - 1]));
        lemma_recorded(s, e.path, e.version, e.stamp, batch);
        let t = q.recorded_all(entries, ks, batch);
        assert forall|i: int| 0 <= i < ks.len() implies holds_version(
            t.list(#[trigger] ks[i]),
            batch,
            entries[ks[i]].version,
        ) by {
            if i < r.len() {
                assert(holds_version(s.list(r[i]), batch, entries[r[i]].version));
            }
        }
        assert forall|p: Seq<u8>, b: BatchId, v: Vector| #[trigger]
            holds_version(q.list(p), b, v) implies holds_version(t.list(p), b, v) by {
            assert(holds_version(s.list(p), b, v));
        }
    }
}

/// Holding a new item keeps the quarantine sound, and records every entry of the item.
pub proof fn law_hold_sound(q: QuarantineView, item: HeldItemView)
    requires
        sound(q),
        item_sound(item),
        !q.items.contains_key(item.batch),
        q.arrivals + item.entries.dom().len() <= u64::MAX,
    ensures
        sound(q.held(item)),
        q.held(item).items == q.items.insert(item.batch, item),
        forall|p: Seq<u8>| #[trigger]
            item.entries.contains_key(p) ==> holds_version(
                q.held(item).list(p),
                item.batch,
                item.entries[p].version,
            ),
        q.held(item).arrivals <= q.arrivals + item.entries.dom().len(),
{
    lemma_order_facts(item.entries.dom());
    let ks = in_order(item.entries.dom());
    assert forall|i: int| 0 <= i < ks.len() implies item.entries.contains_key(#[trigger] ks[i])
        && item.entries[ks[i]].path == ks[i] by {
        assert(item.entries.dom().contains(ks[i]));
        assert(item.entries.contains_key(ks[i]));
    }
    lemma_recorded_all(q, item.entries, ks, item.batch);
    let s = q.recorded_all(item.entries, ks, item.batch);
    let t = q.held(item);
    assert(t.versions == s.versions);
    assert forall|p: Seq<u8>| #[trigger] item.entries.contains_key(p) implies holds_version(
        t.list(p),
        item.batch,
        item.entries[p].version,
    ) by {
        assert(item.entries.dom().contains(p));
        assert(ks.contains(p));
        let i = choose|i: int| 0 <= i < ks.len() && ks[i] == p;
        assert(holds_version(s.list(ks[i]), item.batch, item.entries[ks[i]].version));
    }
    assert forall|b: BatchId, p: Seq<u8>|
        t.items.contains_key(b) && (#[trigger] t.items[b].entries.contains_key(p)) && Some(b)
            != None::<BatchId> implies holds_version(
        t.list(p),
        b,
        t.items[b].entries[p].version,
    ) by {
        if b != item.batch {
            assert(q.items[b].entries.contains_key(p));
            assert(holds_version(q.list(p), b, q.items[b].entries[p].version));
            assert(holds_version(s.list(p), b, q.items[b].entries[p].version));
        }
        assert(t.list(p) == s.list(p));
    }
    lemma_batch_only_at_entries(q, item.entries, ks, item.batch);
    assert forall|p: Seq<u8>, i: int|
        t.versions.contains_key(p) && 0 <= i < t.versions[p].len() implies {
        let b = (#[trigger] t.versions[p][i]).0;
        Some(b) == None::<BatchId> || (t.items.contains_key(b) && t.items[b].entries.contains_key(
            p,
        ))
    } by {
        let b = s.versions[p][i].0;
        assert(t.versions[p][i].0 == b);
        if b == item.batch {
            assert(ks.contains(p));
            assert(item.entries.dom().contains(p));
        }
    }
}

/// Recording entries for a batch that has no versions yet puts its versions at the entries' paths
/// only.
proof fn lemma_batch_only_at_entries(
    q: QuarantineView,
    entries: Map<Seq<u8>, EntryView>,
    ks: Seq<Seq<u8>>,
    batch: BatchId,
)
    requires
        owned(q, None),
        !q.items.contains_key(batch),
        forall|i: int|
            0 <= i < ks.len() ==> entries.contains_key(#[trigger] ks[i]) && entries[ks[i]].path
                == ks[i],
    ensures
        ({
            let t = q.recorded_all(entries, ks, batch);
            forall|p: Seq<u8>, i: int|
                t.versions.contains_key(p) && 0 <= i < t.versions[p].len() && (
                #[trigger] t.versions[p][i]).0 == batch ==> ks.contains(p)
        }),
    decreases ks.len(),
{
    let t = q.recorded_all(entries, ks, batch);
    if ks.len() == 0 {
        assert forall|p: Seq<u8>, i: int|
            t.versions.contains_key(p) && 0 <= i < t.versions[p].len() && (
            #[trigger] t.versions[p][i]).0 == batch implies ks.contains(p) by {
            assert(q.versions[p][i].0 == batch);
        }
    } else {
        let r = ks.drop_last();
        assert forall|i: int| 0 <= i < r.len() implies entries.contains_key(#[trigger] r[i])
            && entries[r[i]].path == r[i] by {
            assert(entries.contains_key(ks[i]));
        }
        lemma_batch_only_at_entries(q, entries, r, batch);
        let s = q.recorded_all(entries, r, batch);
        assert(entries.contains_key(ks[ks.len() - 1]));
        assert forall|p: Seq<u8>, i: int|
            t.versions.contains_key(p) && 0 <= i < t.versions[p].len() && (
            #[trigger] t.versions[p][i]).0 == batch implies ks.contains(p) by {
            if p == ks.last() {
                assert(ks[ks.len() - 1] == p);
            } else {
                assert(s.versions.contains_key(p) && s.versions[p] == t.versions[p]);
                assert(s.versions[p][i].0 == batch);
                let j = choose|j: int| 0 <= j < r.len() && r[j] == p;
                assert(ks[j] == p);
            }
        }
    }
}

// ---- lists ------------------------------------------------------------------

/// What is left of a list without a batch: other batches' versions, in their order, and all of
/// them.
pub proof fn lemma_without(list: Arrivals, batch: BatchId, limit: u64)
    requires
        rising(list, limit),
    ensures
        rising(without(list, batch), limit),
        forall|i: int| 0 <= i < without(list, batch).len() ==> (#[trigger] without(
            list,
            batch,
        )[i]).0 != batch && list.contains(without(list, batch)[i]),
        forall|i: int|
            0 <= i < list.len() && (#[trigger] list[i]).0 != batch ==> without(
                list,
                batch,
            ).contains(list[i]),
    decreases list.len(),
{
    if list.len() > 0 {
        let t = list.drop_last();
        assert forall|i: int, j: int| 0 <= i < j < t.len() implies (#[trigger] t[i]).1.arrival < (
        #[trigger] t[j]).1.arrival by {
            assert(list[i].1.arrival < list[j].1.arrival);
        }
        assert forall|i: int| 0 <= i < t.len() implies (#[trigger] t[i]).1.arrival <= limit by {
            assert(list[i].1.arrival <= limit);
        }
        lemma_without(t, batch, limit);
        let a = without(t, batch);
        let b = without(list, batch);
        let x = list.last();
        assert(list[list.len() - 1] == x);
        assert forall|i: int| 0 <= i < a.len() implies (#[trigger] a[i]).1.arrival < x.1.arrival
            && list.contains(a[i]) by {
            assert(t.contains(a[i]));
            let k = choose|k: int| 0 <= k < t.len() && t[k] == a[i];
            assert(list[k] == a[i]);
            assert(list[k].1.arrival < list[list.len() - 1].1.arrival);
        }
        assert forall|i: int| 0 <= i < b.len() implies (#[trigger] b[i]).0 != batch
            && list.contains(b[i]) by {
            if i < a.len() {
                assert(b[i] == a[i]);
            }
        }
        assert forall|i: int, j: int| 0 <= i < j < b.len() implies (#[trigger] b[i]).1.arrival < (
        #[trigger] b[j]).1.arrival by {
            assert(b[i] == a[i]);
            if j < a.len() {
                assert(b[j] == a[j]);
            }
        }
        assert forall|i: int| 0 <= i < b.len() implies (#[trigger] b[i]).1.arrival <= limit by {
            if i < a.len() {
                assert(b[i] == a[i]);
            }
        }
        assert forall|i: int| 0 <= i < list.len() && (#[trigger] list[i]).0 != batch implies
            b.contains(list[i]) by {
            if i < t.len() {
                assert(t[i] == list[i]);
                assert(a.contains(t[i]));
                let k = choose|k: int| 0 <= k < a.len() && a[k] == t[i];
                assert(b[k] == list[i]);
            } else {
                assert(b[b.len() - 1] == x);
            }
        }
    }
}

/// What a batch has of a list: its versions, in their order, and all of them.
proof fn lemma_only(list: Arrivals, batch: BatchId, limit: u64)
    requires
        rising(list, limit),
    ensures
        forall|i: int, j: int|
            0 <= i < j < only(list, batch).len() ==> (#[trigger] only(list, batch)[i]).arrival < (
            #[trigger] only(list, batch)[j]).arrival,
        forall|i: int|
            0 <= i < only(list, batch).len() ==> list.contains(
                (batch, #[trigger] only(list, batch)[i]),
            ),
        forall|i: int|
            0 <= i < list.len() && (#[trigger] list[i]).0 == batch ==> only(list, batch).contains(
                list[i].1,
            ),
    decreases list.len(),
{
    if list.len() > 0 {
        let t = list.drop_last();
        assert forall|i: int, j: int| 0 <= i < j < t.len() implies (#[trigger] t[i]).1.arrival < (
        #[trigger] t[j]).1.arrival by {
            assert(list[i].1.arrival < list[j].1.arrival);
        }
        assert forall|i: int| 0 <= i < t.len() implies (#[trigger] t[i]).1.arrival <= limit by {
            assert(list[i].1.arrival <= limit);
        }
        lemma_only(t, batch, limit);
        let a = only(t, batch);
        let b = only(list, batch);
        let x = list.last();
        assert(list[list.len() - 1] == x);
        assert forall|i: int| 0 <= i < a.len() implies (#[trigger] a[i]).arrival < x.1.arrival
            && list.contains((batch, a[i])) by {
            assert(t.contains((batch, a[i])));
            let k = choose|k: int| 0 <= k < t.len() && t[k] == (batch, a[i]);
            assert(list[k] == (batch, a[i]));
            assert(list[k].1.arrival < list[list.len() - 1].1.arrival);
        }
        assert forall|i: int, j: int| 0 <= i < j < b.len() implies (#[trigger] b[i]).arrival < (
        #[trigger] b[j]).arrival by {
            assert(b[i] == a[i]);
            if j < a.len() {
                assert(b[j] == a[j]);
            }
        }
        assert forall|i: int| 0 <= i < b.len() implies list.contains((batch, #[trigger] b[i])) by {
            if i < a.len() {
                assert(b[i] == a[i]);
            } else {
                assert(x == (batch, b[i]));
            }
        }
        assert forall|i: int| 0 <= i < list.len() && (#[trigger] list[i]).0 == batch implies
            b.contains(list[i].1) by {
            if i < t.len() {
                assert(t[i] == list[i]);
                assert(a.contains(t[i].1));
                let k = choose|k: int| 0 <= k < a.len() && a[k] == t[i].1;
                assert(b[k] == list[i].1);
            } else {
                assert(b[b.len() - 1] == x.1);
            }
        }
    }
}

/// What is left of a list without a batch has no version twice either.
pub proof fn lemma_without_unrepeated(list: Arrivals, batch: BatchId)
    requires
        unrepeated(list),
    ensures
        unrepeated(without(list, batch)),
        forall|i: int|
            0 <= i < without(list, batch).len() ==> list.contains(
                #[trigger] without(list, batch)[i],
            ),
    decreases list.len(),
{
    if list.len() > 0 {
        let t = list.drop_last();
        assert forall|i: int, j: int|
            0 <= i < j < t.len() && (#[trigger] t[i]).0 == (#[trigger] t[j]).0 implies
            t[i].1.version != t[j].1.version by {
            assert(list[i].0 == list[j].0);
        }
        lemma_without_unrepeated(t, batch);
        let a = without(t, batch);
        let b = without(list, batch);
        let x = list.last();
        assert(list[list.len() - 1] == x);
        assert forall|i: int| 0 <= i < a.len() implies list.contains(#[trigger] a[i]) && (a[i].0
            == x.0 ==> a[i].1.version != x.1.version) by {
            assert(t.contains(a[i]));
            let k = choose|k: int| 0 <= k < t.len() && t[k] == a[i];
            assert(list[k] == a[i]);
            if a[i].0 == x.0 {
                assert(list[k].0 == list[list.len() - 1].0);
            }
        }
        assert forall|i: int| 0 <= i < b.len() implies list.contains(#[trigger] b[i]) by {
            if i < a.len() {
                assert(b[i] == a[i]);
            }
        }
        assert forall|i: int, j: int|
            0 <= i < j < b.len() && (#[trigger] b[i]).0 == (#[trigger] b[j]).0 implies
            b[i].1.version != b[j].1.version by {
            assert(b[i] == a[i]);
            if j < a.len() {
                assert(b[j] == a[j]);
            }
        }
    }
}

// ---- releasing --------------------------------------------------------------

/// Releasing an item removes every version that it held, and leaves those of other items.
pub proof fn law_release_clears(q: QuarantineView, batch: BatchId, p: Seq<u8>)
    requires
        sound(q),
        q.items.contains_key(batch),
    ensures
        !q.released(batch).items.contains_key(batch),
        forall|i: int|
            0 <= i < q.released(batch).list(p).len() ==> (#[trigger] q.released(batch).list(
                p,
            )[i]).0 != batch,
        forall|i: int|
            0 <= i < q.list(p).len() && (#[trigger] q.list(p)[i]).0 != batch ==> q.released(
                batch,
            ).list(p).contains(q.list(p)[i]),
{
    let t = q.released(batch);
    if q.versions.contains_key(p) {
        lemma_without(q.versions[p], batch, q.arrivals);
        if q.items[batch].entries.contains_key(p) {
            if without(q.versions[p], batch).len() > 0 {
                assert(t.list(p) == without(q.versions[p], batch));
            } else {
                assert(t.list(p) =~= Seq::empty());
            }
        } else {
            assert(t.list(p) == q.versions[p]);
            assert forall|i: int| 0 <= i < t.list(p).len() implies (#[trigger] t.list(p)[i]).0
                != batch by {
                let b = q.versions[p][i].0;
            }
        }
    }
}

/// Releasing keeps the quarantine sound.
pub proof fn law_release_sound(q: QuarantineView, batch: BatchId)
    requires
        sound(q),
    ensures
        sound(q.released(batch)),
{
    if q.items.contains_key(batch) {
        let t = q.released(batch);
        assert(t.versions.dom().subset_of(q.versions.dom()));
        vstd::set_lib::lemma_set_subset_finite(q.versions.dom(), t.versions.dom());
        assert forall|p: Seq<u8>| #[trigger] t.versions.contains_key(p) implies t.versions[p].len()
            > 0 && rising(t.versions[p], t.arrivals) && unrepeated(t.versions[p]) by {
            assert(q.versions.contains_key(p));
            lemma_without(q.versions[p], batch, q.arrivals);
            lemma_without_unrepeated(q.versions[p], batch);
        }
        assert forall|p: Seq<u8>, i: int|
            t.versions.contains_key(p) && 0 <= i < t.versions[p].len() implies {
            let b = (#[trigger] t.versions[p][i]).0;
            Some(b) == None::<BatchId> || (t.items.contains_key(b)
                && t.items[b].entries.contains_key(p))
        } by {
            law_release_clears(q, batch, p);
            lemma_without(q.versions[p], batch, q.arrivals);
            let x = t.versions[p][i];
            assert(t.list(p)[i].0 != batch);
            if q.items[batch].entries.contains_key(p) {
                assert(q.versions[p].contains(x));
                let k = choose|k: int| 0 <= k < q.versions[p].len() && q.versions[p][k] == x;
                assert(q.versions[p][k].0 == x.0);
            } else {
                assert(q.versions[p][i].0 == x.0);
            }
        }
        assert forall|b: BatchId, p: Seq<u8>|
            t.items.contains_key(b) && (#[trigger] t.items[b].entries.contains_key(p)) && Some(b)
                != None::<BatchId> implies holds_version(
            t.list(p),
            b,
            t.items[b].entries[p].version,
        ) by {
            assert(q.items[b].entries.contains_key(p));
            assert(holds_version(q.list(p), b, q.items[b].entries[p].version));
            let i = choose|i: int|
                0 <= i < q.list(p).len() && (#[trigger] q.list(p)[i]).0 == b && q.list(
                    p,
                )[i].1.version == q.items[b].entries[p].version;
            law_release_clears(q, batch, p);
            assert(t.list(p).contains(q.list(p)[i]));
            let k = choose|k: int| 0 <= k < t.list(p).len() && t.list(p)[k] == q.list(p)[i];
            assert(t.list(p)[k].0 == b);
        }
    }
}

/// Denying keeps the quarantine sound, and the denied item keeps all that it held.
pub proof fn law_deny_sound(q: QuarantineView, batch: BatchId)
    requires
        sound(q),
    ensures
        sound(q.denial(batch)),
        q.items.contains_key(batch) ==> !q.denial(batch).items.contains_key(batch)
            && q.denial(batch).denied[next_number(q.arrivals)] == q.row(batch)->0,
{
    law_release_sound(q, batch);
    if q.items.contains_key(batch) {
        let s = q.released(batch);
        let t = q.denial(batch);
        assert forall|p: Seq<u8>| #[trigger] t.versions.contains_key(p) implies t.versions[p].len()
            > 0 && rising(t.versions[p], t.arrivals) && unrepeated(t.versions[p]) by {
            assert(s.versions.contains_key(p));
            assert(rising(s.versions[p], s.arrivals));
            assert forall|i: int| 0 <= i < t.versions[p].len() implies (
            #[trigger] t.versions[p][i]).1.arrival <= t.arrivals by {
                assert(s.versions[p][i].1.arrival <= s.arrivals);
            }
        }
        assert(owned(t, None)) by {
            assert forall|p: Seq<u8>, i: int|
                t.versions.contains_key(p) && 0 <= i < t.versions[p].len() implies {
                let b = (#[trigger] t.versions[p][i]).0;
                Some(b) == None::<BatchId> || (t.items.contains_key(b)
                    && t.items[b].entries.contains_key(p))
            } by {
                assert(s.versions[p][i].0 == t.versions[p][i].0);
            }
        }
        assert(recorded_but(t, None)) by {
            assert forall|b: BatchId, p: Seq<u8>|
                t.items.contains_key(b) && (#[trigger] t.items[b].entries.contains_key(p)) && Some(
                    b,
                ) != None::<BatchId> implies holds_version(
                t.list(p),
                b,
                t.items[b].entries[p].version,
            ) by {
                assert(s.items[b].entries.contains_key(p));
                assert(t.list(p) == s.list(p));
            }
        }
    }
}

// ---- matching ---------------------------------------------------------------

proof fn lemma_first_match(list: Arrivals, version: Vector, i: int)
    requires
        0 <= i < list.len(),
        covers(version, list[i].1.version),
    ensures
        first_match(list, version) is Some,
    decreases list.len(),
{
    if i < list.len() - 1 {
        assert(list.drop_last()[i] == list[i]);
        lemma_first_match(list.drop_last(), version, i);
    }
}

proof fn lemma_first_match_owner(list: Arrivals, version: Vector)
    ensures
        match first_match(list, version) {
            Some(b) => exists|i: int|
                0 <= i < list.len() && (#[trigger] list[i]).0 == b && covers(
                    version,
                    list[i].1.version,
                ),
            None => forall|i: int|
                0 <= i < list.len() ==> !covers(version, (#[trigger] list[i]).1.version),
        },
    decreases list.len(),
{
    if list.len() > 0 {
        let t = list.drop_last();
        lemma_first_match_owner(t, version);
        match first_match(t, version) {
            Some(b) => {
                let i = choose|i: int|
                    0 <= i < t.len() && (#[trigger] t[i]).0 == b && covers(version, t[i].1.version);
                assert(list[i].0 == b);
            },
            None => {
                if covers(version, list.last().1.version) {
                    assert(list[list.len() - 1].0 == list.last().0);
                } else {
                    assert forall|i: int| 0 <= i < list.len() implies !covers(
                        version,
                        (#[trigger] list[i]).1.version,
                    ) by {
                        if i < t.len() {
                            assert(t[i] == list[i]);
                        }
                    }
                }
            },
        }
    }
}

/// Whatever a held item holds, the same version and every later one at its path match an item
/// that exists; and a match is always such a version.
pub proof fn law_held_versions_match(
    q: QuarantineView,
    batch: BatchId,
    p: Seq<u8>,
    version: Vector,
)
    requires
        sound(q),
    ensures
        q.items.contains_key(batch) && q.items[batch].entries.contains_key(p) && covers(
            version,
            q.items[batch].entries[p].version,
        ) ==> first_match(q.list(p), version) is Some,
        first_match(q.list(p), version) is Some ==> q.items.contains_key(
            first_match(q.list(p), version)->0,
        ) && q.items[first_match(q.list(p), version)->0].entries.contains_key(p),
{
    if q.items.contains_key(batch) && q.items[batch].entries.contains_key(p) && covers(
        version,
        q.items[batch].entries[p].version,
    ) {
        assert(holds_version(q.list(p), batch, q.items[batch].entries[p].version));
        let i = choose|i: int|
            0 <= i < q.list(p).len() && (#[trigger] q.list(p)[i]).0 == batch && q.list(
                p,
            )[i].1.version == q.items[batch].entries[p].version;
        lemma_first_match(q.list(p), version, i);
    }
    lemma_first_match_owner(q.list(p), version);
    if first_match(q.list(p), version) is Some {
        let b = first_match(q.list(p), version)->0;
        let i = choose|i: int|
            0 <= i < q.list(p).len() && (#[trigger] q.list(p)[i]).0 == b && covers(
                version,
                q.list(p)[i].1.version,
            );
        assert(q.versions.contains_key(p));
        assert(q.versions[p][i].0 == b);
    }
}

// ---- rows -------------------------------------------------------------------

/// Whether a list has no arrival number twice.
spec fn apart(list: Arrivals) -> bool {
    forall|i: int, j: int|
        0 <= i < list.len() && 0 <= j < list.len() && i != j ==> (#[trigger] list[i]).1.arrival != (
        #[trigger] list[j]).1.arrival
}

/// The arrival numbers of a list.
spec fn numbers(list: Arrivals) -> Seq<u64> {
    Seq::new(list.len(), |i: int| list[i].1.arrival)
}

/// A list with the elements of a rising one, each once, becomes that one when it is put in the
/// order of arrival.
proof fn lemma_by_arrival(list: Arrivals, target: Arrivals, limit: u64)
    requires
        apart(list),
        rising(target, limit),
        list.len() <= u64::MAX,
        forall|x: (BatchId, QuarantinedView)| #[trigger]
            list.contains(x) <==> target.contains(x),
    ensures
        by_arrival(list) == target,
{
    let keys = arrival_keys(list);
    lemma_arrival_keys_finite(list);
    lemma_order_facts(keys);
    let ks = in_order(keys);
    let r = by_arrival(list);
    assert forall|i: int| 0 <= i < r.len() implies r[i] == list[ks[i].1 as int] && ks[i].1
        < list.len() && r[i].1.arrival == ks[i].0 by {
        assert(keys.contains(ks[i]));
    }
    let a = numbers(r);
    let b = numbers(target);
    assert(increasing(a)) by {
        assert forall|i: int, j: int| 0 <= i < j < a.len() implies #[trigger] a[i].before(
            #[trigger] a[j],
        ) by {
            assert(ks[i].before(ks[j]));
            if ks[i].0 == ks[j].0 {
                assert(list[ks[i].1 as int].1.arrival == list[ks[j].1 as int].1.arrival);
                assert(ks[i].1 == ks[j].1);
                assert(false);
            }
        }
    }
    assert(increasing(b)) by {
        assert forall|i: int, j: int| 0 <= i < j < b.len() implies #[trigger] b[i].before(
            #[trigger] b[j],
        ) by {
            assert(target[i].1.arrival < target[j].1.arrival);
        }
    }
    assert forall|x: (BatchId, QuarantinedView)| #[trigger] r.contains(x) <==> list.contains(x) by {
        if r.contains(x) {
            let i = choose|i: int| 0 <= i < r.len() && r[i] == x;
            assert(list[ks[i].1 as int] == x);
        }
        if list.contains(x) {
            let i = choose|i: int| 0 <= i < list.len() && list[i] == x;
            let k = (x.1.arrival, i as u64);
            assert(keys.contains(k));
            assert(ks.contains(k));
            let j = choose|j: int| 0 <= j < ks.len() && ks[j] == k;
            assert(r[j] == x);
        }
    }
    let s = Set::new(|n: u64| a.contains(n));
    assert(lists(a, s));
    assert(lists(b, s)) by {
        assert forall|n: u64| #[trigger] s.contains(n) <==> b.contains(n) by {
            if a.contains(n) {
                let i = choose|i: int| 0 <= i < a.len() && a[i] == n;
                assert(r.contains(r[i]));
                assert(target.contains(r[i]));
                let j = choose|j: int| 0 <= j < target.len() && target[j] == r[i];
                assert(b[j] == n);
            }
            if b.contains(n) {
                let i = choose|i: int| 0 <= i < b.len() && b[i] == n;
                assert(target.contains(target[i]));
                assert(r.contains(target[i]));
                let j = choose|j: int| 0 <= j < r.len() && r[j] == target[i];
                assert(a[j] == n);
            }
        }
    }
    lemma_lists_unique(a, b, s);
    assert(r.len() == target.len()) by {
        assert(a.len() == r.len());
        assert(b.len() == target.len());
    }
    assert forall|i: int| 0 <= i < r.len() implies r[i] == target[i] by {
        assert(r.contains(r[i]));
        assert(target.contains(r[i]));
        let j = choose|j: int| 0 <= j < target.len() && target[j] == r[i];
        assert(a[i] == b[i]);
        assert(target[j].1.arrival == target[i].1.arrival);
        if i < j {
            assert(target[i].1.arrival < target[j].1.arrival);
        }
        if j < i {
            assert(target[j].1.arrival < target[i].1.arrival);
        }
    }
    assert(r =~= target);
}

proof fn lemma_arrival_keys_finite(list: Arrivals)
    ensures
        arrival_keys(list).finite(),
{
    let idx = vstd::set_lib::set_int_range(0, list.len() as int);
    vstd::set_lib::lemma_int_range(0, list.len() as int);
    let f = |i: int| (list[i].1.arrival, i as u64);
    idx.lemma_map_finite(f);
    let m = idx.map(f);
    assert forall|k: (u64, u64)| #[trigger] arrival_keys(list).contains(k) implies m.contains(
        k,
    ) by {
        assert(idx.contains(k.1 as int));
        assert(f(k.1 as int) == k);
    }
    vstd::set_lib::lemma_set_subset_finite(m, arrival_keys(list));
}

/// Whether a quarantine built from some rows of another agrees with it so far.
spec fn built(
    q: QuarantineView,
    r: QuarantineView,
    ks: Seq<(BatchId, HeldState)>,
    p: Seq<u8>,
) -> bool {
    &&& r.arrivals == q.arrivals
    &&& r.changed == Set::<(BatchId, HeldState)>::empty()
    &&& forall|b: BatchId| #[trigger]
        r.items.contains_key(b) <==> ks.contains((b, HeldState::Held))
    &&& forall|b: BatchId| #[trigger] r.items.contains_key(b) ==> r.items[b] == q.items[b]
    &&& forall|at: u64| #[trigger]
        r.denied.contains_key(at) <==> q.denied.contains_key(at) && ks.contains(
            (q.denied[at].item.batch, HeldState::Denied { at }),
        )
    &&& forall|at: u64| #[trigger] r.denied.contains_key(at) ==> r.denied[at] == q.denied[at]
    &&& r.versions.contains_key(p) <==> exists|b: BatchId| #[trigger]
        ks.contains((b, HeldState::Held)) && q.items[b].entries.contains_key(p)
    &&& apart(r.list(p))
    &&& r.list(p).len() <= q.list(p).len()
    &&& forall|x: (BatchId, QuarantinedView)| #[trigger]
        r.list(p).contains(x) <==> q.list(p).contains(x) && ks.contains((x.0, HeldState::Held))
}

proof fn lemma_built(q: QuarantineView, ks: Seq<(BatchId, HeldState)>, p: Seq<u8>)
    requires
        sound(q),
        ks.no_duplicates(),
        forall|i: int| 0 <= i < ks.len() ==> q.rows().contains_key(#[trigger] ks[i]),
    ensures
        built(
            q,
            (QuarantineView { arrivals: q.arrivals, ..QuarantineView::initial() }).with_rows(
                q.rows(),
                ks,
            ),
            ks,
            p,
        ),
    decreases ks.len(),
{
    let start = QuarantineView { arrivals: q.arrivals, ..QuarantineView::initial() };
    let r = start.with_rows(q.rows(), ks);
    if ks.len() == 0 {
        assert(r.list(p) =~= Seq::empty());
    } else {
        let t = ks.drop_last();
        let k = ks.last();
        assert forall|i: int| 0 <= i < t.len() implies q.rows().contains_key(#[trigger] t[i]) by {
            assert(q.rows().contains_key(ks[i]));
        }
        lemma_built(q, t, p);
        let s = start.with_rows(q.rows(), t);
        assert(q.rows().contains_key(ks[ks.len() - 1]));
        assert forall|x: (BatchId, HeldState)|
            ks.contains(x) <==> t.contains(x) || x == k by {
            lemma_take_contains(ks, ks.len() - 1, x);
            assert(ks.take(ks.len() - 1) =~= t);
            assert(ks.take(ks.len() as int) =~= ks);
        }
        assert(!t.contains(k)) by {
            lemma_take_contains(ks, ks.len() - 1, k);
            assert(ks.take(ks.len() - 1) =~= t);
        }
        match k.1 {
            HeldState::Held => {
                lemma_built_held(q, s, r, t, ks, p);
            },
            HeldState::Denied { at } => {
                assert(r.list(p) == s.list(p));
                assert forall|b: BatchId| #[trigger]
                    ks.contains((b, HeldState::Held)) <==> t.contains((b, HeldState::Held)) by {}
                assert(built(q, r, ks, p)) by {
                    assert forall|x: (BatchId, QuarantinedView)| #[trigger]
                        r.list(p).contains(x) <==> q.list(p).contains(x) && ks.contains(
                            (x.0, HeldState::Held),
                        ) by {
                        assert(s.list(p).contains(x) <==> q.list(p).contains(x) && t.contains(
                            (x.0, HeldState::Held),
                        ));
                    }
                    if r.versions.contains_key(p) {
                        assert(s.versions.contains_key(p));
                        let b = choose|b: BatchId| #[trigger]
                            t.contains((b, HeldState::Held)) && q.items[b].entries.contains_key(p);
                        assert(ks.contains((b, HeldState::Held)));
                    }
                    if exists|b: BatchId| #[trigger]
                        ks.contains((b, HeldState::Held)) && q.items[b].entries.contains_key(p) {
                        let b = choose|b: BatchId| #[trigger]
                            ks.contains((b, HeldState::Held)) && q.items[b].entries.contains_key(p);
                        assert(t.contains((b, HeldState::Held)));
                    }
                }
            },
        }
    }
}

/// One held row more.
proof fn lemma_built_held(
    q: QuarantineView,
    s: QuarantineView,
    r: QuarantineView,
    t: Seq<(BatchId, HeldState)>,
    ks: Seq<(BatchId, HeldState)>,
    p: Seq<u8>,
)
    requires
        sound(q),
        built(q, s, t, p),
        ks.len() > 0,
        t == ks.drop_last(),
        ks.last().1 == HeldState::Held,
        q.rows().contains_key(ks.last()),
        r == s.with_row(ks.last(), q.rows()[ks.last()]),
        !t.contains(ks.last()),
        forall|x: (BatchId, HeldState)| ks.contains(x) <==> t.contains(x) || x == ks.last(),
    ensures
        built(q, r, ks, p),
{
    let b = ks.last().0;
    let row = q.rows()[ks.last()];
    assert(row == q.row(b)->0);
    let mine = only(q.list(p), b);
    let limit = q.arrivals;
    if q.versions.contains_key(p) {
        lemma_only(q.list(p), b, limit);
    } else {
        assert(mine =~= Seq::empty());
    }
    let more = tagged(mine, b);
    let has = q.items[b].entries.contains_key(p);
    assert(row.versions.contains_key(p) <==> has);
    if has {
        assert(row.versions[p] == mine);
        assert(r.list(p) =~= s.list(p) + more);
    } else {
        assert(r.list(p) =~= s.list(p));
        assert forall|i: int| 0 <= i < q.list(p).len() implies (#[trigger] q.list(p)[i]).0 != b by {
            assert(q.versions[p][i].0 == q.list(p)[i].0);
        }
    }
    assert forall|x: (BatchId, QuarantinedView)| #[trigger]
        r.list(p).contains(x) <==> q.list(p).contains(x) && ks.contains((x.0, HeldState::Held)) by {
        assert(s.list(p).contains(x) <==> q.list(p).contains(x) && t.contains(
            (x.0, HeldState::Held),
        ));
        if q.list(p).contains(x) && x.0 == b {
            let i = choose|i: int| 0 <= i < q.list(p).len() && q.list(p)[i] == x;
            assert(q.list(p)[i].0 == b);
            assert(has);
            assert(mine.contains(x.1));
            let j = choose|j: int| 0 <= j < mine.len() && mine[j] == x.1;
            assert(more[j] == x);
            assert(r.list(p)[s.list(p).len() + j] == x);
        }
        if s.list(p).contains(x) {
            let i = choose|i: int| 0 <= i < s.list(p).len() && s.list(p)[i] == x;
            assert(r.list(p)[i] == x);
        }
        if r.list(p).contains(x) {
            let i = choose|i: int| 0 <= i < r.list(p).len() && r.list(p)[i] == x;
            if i < s.list(p).len() {
                assert(s.list(p)[i] == x);
                assert(s.list(p).contains(x));
            } else {
                let j = i - s.list(p).len();
                assert(more[j] == x);
                assert(q.list(p).contains((b, mine[j])));
            }
        }
    }
    assert(apart(r.list(p))) by {
        let l = r.list(p);
        let n = s.list(p).len() as int;
        assert forall|i: int, j: int|
            0 <= i < l.len() && 0 <= j < l.len() && i != j implies (#[trigger] l[i]).1.arrival != (
        #[trigger] l[j]).1.arrival by {
            if i < n && j < n {
                assert(s.list(p)[i] == l[i]);
                assert(s.list(p)[j] == l[j]);
            } else if i >= n && j >= n {
                assert(l[i] == more[i - n]);
                assert(l[j] == more[j - n]);
                if i < j {
                    assert(mine[i - n].arrival < mine[j - n].arrival);
                } else {
                    assert(mine[j - n].arrival < mine[i - n].arrival);
                }
            } else {
                assert(l.contains(l[i]));
                assert(l.contains(l[j]));
                assert(q.list(p).contains(l[i]));
                assert(q.list(p).contains(l[j]));
                let a = choose|a: int| 0 <= a < q.list(p).len() && q.list(p)[a] == l[i];
                let c = choose|c: int| 0 <= c < q.list(p).len() && q.list(p)[c] == l[j];
                let (old_one, new_one) = if i < n {
                    (l[i], l[j])
                } else {
                    (l[j], l[i])
                };
                assert(new_one.0 == b);
                assert(s.list(p).contains(old_one)) by {
                    if i < n {
                        assert(s.list(p)[i] == old_one);
                    } else {
                        assert(s.list(p)[j] == old_one);
                    }
                }
                assert(t.contains((old_one.0, HeldState::Held)));
                assert(old_one.0 != b);
                assert(rising(q.versions[p], q.arrivals));
                if a < c {
                    assert(q.list(p)[a].1.arrival < q.list(p)[c].1.arrival);
                } else if c < a {
                    assert(q.list(p)[c].1.arrival < q.list(p)[a].1.arrival);
                } else {
                    assert(l[i] == l[j]);
                }
            }
        }
    }
    lemma_apart_len(r.list(p), q.list(p));
    if r.versions.contains_key(p) {
        if has {
            assert(ks.contains((b, HeldState::Held)) && q.items[b].entries.contains_key(p));
        } else {
            assert(s.versions.contains_key(p));
            let c = choose|c: BatchId| #[trigger]
                t.contains((c, HeldState::Held)) && q.items[c].entries.contains_key(p);
            assert(ks.contains((c, HeldState::Held)));
        }
    }
    if exists|c: BatchId| #[trigger]
        ks.contains((c, HeldState::Held)) && q.items[c].entries.contains_key(p) {
        let c = choose|c: BatchId| #[trigger]
            ks.contains((c, HeldState::Held)) && q.items[c].entries.contains_key(p);
        if c != b {
            assert(t.contains((c, HeldState::Held)));
        }
    }
}

/// A list whose elements are all in another, none twice, is no longer than the other.
proof fn lemma_apart_len(a: Arrivals, b: Arrivals)
    requires
        apart(a),
        forall|x: (BatchId, QuarantinedView)| #[trigger] a.contains(x) ==> b.contains(x),
    ensures
        a.len() <= b.len(),
{
    assert(a.no_duplicates()) by {
        assert forall|i: int, j: int| 0 <= i < a.len() && 0 <= j < a.len() && i != j implies a[i]
            != a[j] by {
            assert(a[i].1.arrival != a[j].1.arrival);
        }
    }
    a.unique_seq_to_set();
    vstd::seq_lib::seq_to_set_is_finite(a);
    vstd::seq_lib::seq_to_set_is_finite(b);
    b.lemma_cardinality_of_set();
    assert(a.to_set().subset_of(b.to_set()));
    vstd::set_lib::lemma_len_subset(a.to_set(), b.to_set());
}

/// A quarantine rebuilt from its rows and its arrival number is the one that they came from, with
/// nothing noted as changed: the versions of every path are in the order of arrival again,
/// whatever items they belong to.
pub proof fn law_rebuilt_from_rows(q: QuarantineView)
    requires
        sound(q),
        forall|p: Seq<u8>| #[trigger] q.versions.contains_key(p) ==> q.versions[p].len() <= u64::MAX,
    ensures
        QuarantineView::rebuilt(q.rows(), q.arrivals) == (QuarantineView {
            changed: Set::empty(),
            ..q
        }),
{
    let rows = q.rows();
    lemma_rows_finite(q);
    lemma_order_facts(rows.dom());
    let ks = in_order(rows.dom());
    assert forall|i: int| 0 <= i < ks.len() implies rows.contains_key(#[trigger] ks[i]) by {
        assert(rows.dom().contains(ks[i]));
    }
    let start = QuarantineView { arrivals: q.arrivals, ..QuarantineView::initial() };
    let r = start.with_rows(rows, ks);
    let z = r.arranged();
    lemma_built(q, ks, Seq::empty());
    assert forall|b: BatchId| #[trigger] ks.contains((b, HeldState::Held))
        <==> q.items.contains_key(b) by {
        assert(rows.dom().contains((b, HeldState::Held)) <==> ks.contains((b, HeldState::Held)));
    }
    assert(z.items =~= q.items);
    assert(z.denied =~= q.denied) by {
        assert forall|at: u64| #[trigger] q.denied.contains_key(at) implies r.denied.contains_key(
            at,
        ) by {
            let k = (q.denied[at].item.batch, HeldState::Denied { at });
            assert(rows.contains_key(k));
            assert(rows.dom().contains(k));
        }
    }
    assert forall|p: Seq<u8>| #[trigger] z.versions.contains_key(p) <==> q.versions.contains_key(
        p,
    ) by {
        lemma_built(q, ks, p);
        if r.versions.contains_key(p) {
            let b = choose|b: BatchId| #[trigger]
                ks.contains((b, HeldState::Held)) && q.items[b].entries.contains_key(p);
            assert(q.items.contains_key(b));
            assert(holds_version(q.list(p), b, q.items[b].entries[p].version));
        }
        if q.versions.contains_key(p) {
            let b = q.versions[p][0].0;
            assert(q.items.contains_key(b) && q.items[b].entries.contains_key(p));
            assert(ks.contains((b, HeldState::Held)));
        }
    }
    assert forall|p: Seq<u8>| #[trigger] z.versions.contains_key(p) implies z.versions[p]
        == q.versions[p] by {
        lemma_built(q, ks, p);
        assert forall|x: (BatchId, QuarantinedView)| #[trigger]
            r.versions[p].contains(x) <==> q.versions[p].contains(x) by {
            assert(r.list(p).contains(x) <==> q.list(p).contains(x) && ks.contains(
                (x.0, HeldState::Held),
            ));
            if q.versions[p].contains(x) {
                let i = choose|i: int| 0 <= i < q.versions[p].len() && q.versions[p][i] == x;
                let b = q.versions[p][i].0;
                assert(q.items.contains_key(b));
                assert(ks.contains((b, HeldState::Held)));
            }
        }
        assert(q.versions.contains_key(p));
        assert(r.versions[p].len() <= q.versions[p].len());
        lemma_by_arrival(r.versions[p], q.versions[p], q.arrivals);
    }
    assert(z.versions =~= q.versions);
}

proof fn lemma_rows_finite(q: QuarantineView)
    requires
        sound(q),
    ensures
        q.rows().dom().finite(),
{
    let f = |b: BatchId| (b, HeldState::Held);
    let g = |at: u64| (q.denied[at].item.batch, HeldState::Denied { at });
    q.items.dom().lemma_map_finite(f);
    q.denied.dom().lemma_map_finite(g);
    let a = q.items.dom().map(f);
    let b = q.denied.dom().map(g);
    assert forall|k: (BatchId, HeldState)| #[trigger] q.rows().dom().contains(k) implies a.union(
        b,
    ).contains(k) by {
        match k.1 {
            HeldState::Held => {
                assert(q.items.dom().contains(k.0));
                assert(f(k.0) == k);
            },
            HeldState::Denied { at } => {
                assert(q.denied.dom().contains(at));
                assert(g(at) == k);
            },
        }
    }
    vstd::set_lib::lemma_set_subset_finite(a.union(b), q.rows().dom());
}

// ---- denying and returning --------------------------------------------------

/// No version is recorded twice for one item at one path.
pub proof fn law_recorded_once(
    q: QuarantineView,
    path: Seq<u8>,
    version: Vector,
    stamp: i64,
    batch: BatchId,
    p: Seq<u8>,
)
    requires
        unrepeated(q.list(p)),
    ensures
        unrepeated(q.recorded(path, version, stamp, batch).list(p)),
{
    let l = q.recorded(path, version, stamp, batch).list(p);
    if p == path && !holds_version(q.list(path), batch, version) {
        assert forall|i: int, j: int|
            0 <= i < j < l.len() && (#[trigger] l[i]).0 == (#[trigger] l[j]).0 implies
            l[i].1.version != l[j].1.version by {
            assert(l[i] == q.list(p)[i]);
            if j < q.list(p).len() {
                assert(l[j] == q.list(p)[j]);
            }
        }
    }
}

/// The versions and stamps of a list.
pub open spec fn marks(list: Seq<QuarantinedView>) -> Seq<(Vector, i64)> {
    Seq::new(list.len(), |i: int| (list[i].version, list[i].stamp))
}

/// Whether no two versions of a list are the same.
spec fn all_distinct(list: Seq<QuarantinedView>) -> bool {
    forall|i: int, j: int|
        0 <= i < j < list.len() ==> (#[trigger] list[i]).version != (#[trigger] list[j]).version
}

proof fn lemma_only_distinct(list: Arrivals, batch: BatchId)
    requires
        unrepeated(list),
    ensures
        all_distinct(only(list, batch)),
        forall|i: int|
            0 <= i < only(list, batch).len() ==> list.contains(
                (batch, #[trigger] only(list, batch)[i]),
            ),
    decreases list.len(),
{
    if list.len() > 0 {
        let t = list.drop_last();
        assert forall|i: int, j: int|
            0 <= i < j < t.len() && (#[trigger] t[i]).0 == (#[trigger] t[j]).0 implies
            t[i].1.version != t[j].1.version by {
            assert(list[i].0 == list[j].0);
        }
        lemma_only_distinct(t, batch);
        let a = only(t, batch);
        let b = only(list, batch);
        let x = list.last();
        assert(list[list.len() - 1] == x);
        assert forall|i: int| 0 <= i < a.len() implies list.contains((batch, #[trigger] a[i])) && (
        x.0 == batch ==> a[i].version != x.1.version) by {
            assert(t.contains((batch, a[i])));
            let k = choose|k: int| 0 <= k < t.len() && t[k] == (batch, a[i]);
            assert(list[k] == (batch, a[i]));
            if x.0 == batch {
                assert(list[k].0 == list[list.len() - 1].0);
            }
        }
        assert forall|i: int| 0 <= i < b.len() implies list.contains((batch, #[trigger] b[i])) by {
            if i < a.len() {
                assert(b[i] == a[i]);
            } else {
                assert(x == (batch, b[i]));
            }
        }
        assert forall|i: int, j: int| 0 <= i < j < b.len() implies (#[trigger] b[i]).version != (
        #[trigger] b[j]).version by {
            assert(b[i] == a[i]);
            if j < a.len() {
                assert(b[j] == a[j]);
            }
        }
    }
}

proof fn lemma_without_has_none(list: Arrivals, batch: BatchId)
    ensures
        only(without(list, batch), batch) == Seq::<QuarantinedView>::empty(),
        without(without(list, batch), batch) == without(list, batch),
        forall|i: int|
            0 <= i < without(list, batch).len() ==> (#[trigger] without(list, batch)[i]).0 != batch,
    decreases list.len(),
{
    if list.len() > 0 {
        let t = list.drop_last();
        lemma_without_has_none(t, batch);
        let w = without(list, batch);
        if list.last().0 != batch {
            assert(w.drop_last() =~= without(t, batch));
        }
    }
}

proof fn lemma_none_of_batch(list: Arrivals, batch: BatchId)
    requires
        forall|i: int| 0 <= i < list.len() ==> (#[trigger] list[i]).0 != batch,
    ensures
        only(list, batch) == Seq::<QuarantinedView>::empty(),
        without(list, batch) == list,
    decreases list.len(),
{
    if list.len() > 0 {
        let t = list.drop_last();
        assert forall|i: int| 0 <= i < t.len() implies (#[trigger] t[i]).0 != batch by {
            assert(list[i].0 != batch);
        }
        lemma_none_of_batch(t, batch);
        assert(list[list.len() - 1].0 != batch);
        assert(without(list, batch) =~= list);
    } else {
        assert(without(list, batch) =~= list);
    }
}

proof fn lemma_batch_behind(list: Arrivals, news: Arrivals, batch: BatchId)
    requires
        forall|i: int| 0 <= i < news.len() ==> (#[trigger] news[i]).0 == batch,
    ensures
        without(list + news, batch) == without(list, batch),
        only(list + news, batch) == only(list, batch) + Seq::new(
            news.len(),
            |i: int| news[i].1,
        ),
    decreases news.len(),
{
    if news.len() == 0 {
        assert(list + news =~= list);
        assert(only(list + news, batch) =~= only(list, batch) + Seq::new(
            news.len(),
            |i: int| news[i].1,
        ));
    } else {
        let t = news.drop_last();
        assert forall|i: int| 0 <= i < t.len() implies (#[trigger] t[i]).0 == batch by {
            assert(news[i].0 == batch);
        }
        lemma_batch_behind(list, t, batch);
        assert((list + news).drop_last() =~= list + t);
        assert((list + news).last() == news.last());
        assert(news[news.len() - 1].0 == batch);
        assert(only(list + news, batch) =~= only(list, batch) + Seq::new(
            news.len(),
            |i: int| news[i].1,
        ));
    }
}

/// Versions that an item does not hold yet arrive at the end of the list.
proof fn lemma_recorded_again(
    s: QuarantineView,
    path: Seq<u8>,
    list: Seq<QuarantinedView>,
    batch: BatchId,
) -> (news: Arrivals)
    requires
        all_distinct(list),
        forall|i: int|
            0 <= i < list.len() ==> !holds_version(
                s.list(path),
                batch,
                (#[trigger] list[i]).version,
            ),
    ensures
        ({
            let r = s.recorded_again(path, list, batch);
            &&& r.items == s.items
            &&& r.denied == s.denied
            &&& r.list(path) == s.list(path) + news
            &&& news.len() == list.len()
            &&& forall|i: int|
                0 <= i < news.len() ==> (#[trigger] news[i]).0 == batch && news[i].1.version
                    == list[i].version && news[i].1.stamp == list[i].stamp
            &&& forall|p: Seq<u8>| p != path ==> #[trigger] r.list(p) == s.list(p)
        }),
    decreases list.len(),
{
    if list.len() == 0 {
        assert(s.list(path) + Seq::empty() =~= s.list(path));
        Seq::empty()
    } else {
        let t = list.drop_last();
        let x = list.last();
        assert forall|i: int, j: int| 0 <= i < j < t.len() implies (#[trigger] t[i]).version != (
        #[trigger] t[j]).version by {
            assert(list[i].version != list[j].version);
        }
        assert forall|i: int| 0 <= i < t.len() implies !holds_version(
            s.list(path),
            batch,
            (#[trigger] t[i]).version,
        ) by {
            assert(!holds_version(s.list(path), batch, list[i].version));
        }
        let before = lemma_recorded_again(s, path, t, batch);
        let m = s.recorded_again(path, t, batch);
        assert(!holds_version(m.list(path), batch, x.version)) by {
            if holds_version(m.list(path), batch, x.version) {
                let i = choose|i: int|
                    0 <= i < m.list(path).len() && (#[trigger] m.list(path)[i]).0 == batch
                        && m.list(path)[i].1.version == x.version;
                if i < s.list(path).len() {
                    assert(s.list(path)[i] == m.list(path)[i]);
                    assert(!holds_version(s.list(path), batch, list[list.len() - 1].version));
                } else {
                    let j = i - s.list(path).len();
                    assert(before[j] == m.list(path)[i]);
                    assert(list[j].version != list[list.len() - 1].version);
                }
            }
        }
        let news = before.push(
            (
                batch,
                QuarantinedView {
                    version: x.version,
                    stamp: x.stamp,
                    arrival: next_number(m.arrivals),
                },
            ),
        );
        let r = s.recorded_again(path, list, batch);
        assert(r.list(path) =~= s.list(path) + news);
        assert forall|i: int| 0 <= i < news.len() implies (#[trigger] news[i]).0 == batch
            && news[i].1.version == list[i].version && news[i].1.stamp == list[i].stamp by {
            if i < before.len() {
                assert(news[i] == before[i]);
            }
        }
        assert forall|p: Seq<u8>| p != path implies #[trigger] r.list(p) == s.list(p) by {
            assert(m.list(p) == s.list(p));
        }
        news
    }
}

/// Whether a list is another with the marks of one batch behind it.
spec fn extended(a: Arrivals, b: Arrivals, list: Seq<QuarantinedView>, batch: BatchId) -> bool {
    &&& without(b, batch) == without(a, batch)
    &&& marks(only(b, batch)) == marks(only(a, batch)) + marks(list)
    &&& b.len() == a.len() + list.len()
    &&& b.take(a.len() as int) == a
    &&& forall|i: int| a.len() <= i < b.len() ==> (#[trigger] b[i]).0 == batch
    &&& forall|i: int|
        0 <= i < list.len() ==> holds_version(b, batch, (#[trigger] list[i]).version)
}

proof fn lemma_recorded_rows(
    s: QuarantineView,
    versions: Map<Seq<u8>, Seq<QuarantinedView>>,
    ks: Seq<Seq<u8>>,
    batch: BatchId,
)
    requires
        ks.no_duplicates(),
        forall|i: int|
            0 <= i < ks.len() ==> all_distinct(versions[#[trigger] ks[i]]) && forall|j: int|
                0 <= j < s.list(ks[i]).len() ==> (#[trigger] s.list(ks[i])[j]).0 != batch,
    ensures
        ({
            let r = s.recorded_rows(versions, ks, batch);
            &&& r.items == s.items
            &&& r.denied == s.denied
            &&& forall|p: Seq<u8>| !ks.contains(p) ==> #[trigger] r.list(p) == s.list(p)
            &&& forall|p: Seq<u8>|
                ks.contains(p) ==> extended(s.list(p), #[trigger] r.list(p), versions[p], batch)
        }),
    decreases ks.len(),
{
    if ks.len() > 0 {
        let t = ks.drop_last();
        let x = ks.last();
        assert forall|p: Seq<u8>| ks.contains(p) <==> t.contains(p) || p == x by {
            lemma_take_contains(ks, ks.len() - 1, p);
            assert(ks.take(ks.len() - 1) =~= t);
            assert(ks.take(ks.len() as int) =~= ks);
        }
        assert(!t.contains(x)) by {
            lemma_take_contains(ks, ks.len() - 1, x);
            assert(ks.take(ks.len() - 1) =~= t);
        }
        assert forall|i: int| 0 <= i < t.len() implies all_distinct(versions[#[trigger] t[i]])
            && forall|j: int|
            0 <= j < s.list(t[i]).len() ==> (#[trigger] s.list(t[i])[j]).0 != batch by {
            assert(all_distinct(versions[ks[i]]));
        }
        lemma_recorded_rows(s, versions, t, batch);
        let m = s.recorded_rows(versions, t, batch);
        let r = s.recorded_rows(versions, ks, batch);
        assert(m.list(x) == s.list(x));
        assert(all_distinct(versions[ks[ks.len() - 1]]));
        let list = versions[x];
        let news = lemma_recorded_again(m, x, list, batch);
        lemma_batch_behind(s.list(x), news, batch);
        assert forall|p: Seq<u8>| ks.contains(p) implies extended(
            s.list(p),
            #[trigger] r.list(p),
            versions[p],
            batch,
        ) by {
            if p == x {
                assert(r.list(x).take(s.list(x).len() as int) =~= s.list(x));
                assert forall|i: int| s.list(x).len() <= i < r.list(x).len() implies (
                #[trigger] r.list(x)[i]).0 == batch by {
                    assert(r.list(x)[i] == news[i - s.list(x).len()]);
                }
                assert(marks(only(r.list(x), batch)) =~= marks(only(s.list(x), batch)) + marks(
                    list,
                ));
                assert forall|i: int| 0 <= i < list.len() implies holds_version(
                    r.list(x),
                    batch,
                    (#[trigger] list[i]).version,
                ) by {
                    let k = s.list(x).len() + i;
                    assert(r.list(x)[k as int] == news[i]);
                    assert(r.list(x)[k as int].0 == batch);
                }
            } else {
                assert(r.list(p) == m.list(p));
                assert(extended(s.list(p), m.list(p), versions[p], batch));
            }
        }
        assert forall|p: Seq<u8>| !ks.contains(p) implies #[trigger] r.list(p) == s.list(p) by {
            assert(m.list(p) == s.list(p));
        }
    }
}

/// Recording what is recorded already changes nothing.
proof fn lemma_recorded_all_again(
    q: QuarantineView,
    entries: Map<Seq<u8>, EntryView>,
    ks: Seq<Seq<u8>>,
    batch: BatchId,
)
    requires
        forall|i: int|
            0 <= i < ks.len() ==> holds_version(
                q.list(entries[#[trigger] ks[i]].path),
                batch,
                entries[ks[i]].version,
            ),
    ensures
        q.recorded_all(entries, ks, batch) == q,
    decreases ks.len(),
{
    if ks.len() > 0 {
        let t = ks.drop_last();
        assert forall|i: int| 0 <= i < t.len() implies holds_version(
            q.list(entries[#[trigger] t[i]].path),
            batch,
            entries[t[i]].version,
        ) by {
            assert(holds_version(
                q.list(entries[ks[i]].path),
                batch,
                entries[ks[i]].version,
            ));
        }
        lemma_recorded_all_again(q, entries, t, batch);
        assert(holds_version(
            q.list(entries[ks[ks.len() - 1]].path),
            batch,
            entries[ks[ks.len() - 1]].version,
        ));
    }
}

/// A denied item that is returned is held again as it was: the same items, and at every path the
/// same versions with the same stamps, those of other items untouched. It arrived again, so its
/// versions come last at every path.
pub proof fn law_denied_item_returns(q: QuarantineView, batch: BatchId, p: Seq<u8>)
    requires
        sound(q),
        q.items.contains_key(batch),
        q.denied == Map::<u64, HeldRowView>::empty(),
    ensures
        ({
            let t = q.denial(batch).all_returned();
            &&& t.items == q.items
            &&& t.denied == Map::<u64, HeldRowView>::empty()
            &&& without(t.list(p), batch) == without(q.list(p), batch)
            &&& marks(only(t.list(p), batch)) == marks(only(q.list(p), batch))
            &&& t.list(p).take(without(q.list(p), batch).len() as int) == without(
                q.list(p),
                batch,
            )
            &&& forall|i: int|
                without(q.list(p), batch).len() <= i < t.list(p).len() ==> (#[trigger] t.list(
                    p,
                )[i]).0 == batch
        }),
{
    let row = q.row(batch)->0;
    let item = q.items[batch];
    let d = q.denial(batch);
    let at = next_number(q.arrivals);
    assert(d.denied =~= Map::<u64, HeldRowView>::empty().insert(at, row));
    let start = QuarantineView { denied: Map::empty(), ..d };
    let one = seq![at];
    assert(lists(one, d.denied.dom())) by {
        assert forall|k: u64| #[trigger] d.denied.dom().contains(k) <==> one.contains(k) by {
            assert(one[0] == at);
        }
    }
    lemma_in_order(one, d.denied.dom());
    assert(one.drop_last() =~= Seq::empty());
    let s = start.noted(batch, HeldState::Denied { at });
    let t = d.all_returned();
    assert(start.returned(d.denied, Seq::empty()) == start);
    assert(t == s.reinstated(row));
    // Nothing of the item is left after the denial.
    assert forall|x: Seq<u8>| #[trigger] s.list(x) == without(q.list(x), batch) by {
        lemma_released_list(q, batch, x);
    }
    let ks = in_order(row.versions.dom());
    assert(row.versions.dom() =~= item.entries.dom());
    lemma_order_facts(item.entries.dom());
    assert forall|i: int| 0 <= i < ks.len() implies all_distinct(row.versions[#[trigger] ks[i]])
        && forall|j: int|
        0 <= j < s.list(ks[i]).len() ==> (#[trigger] s.list(ks[i])[j]).0 != batch by {
        assert(item.entries.dom().contains(ks[i]));
        assert(unrepeated(q.list(ks[i]))) by {
            if q.versions.contains_key(ks[i]) {
                assert(unrepeated(q.versions[ks[i]]));
            }
        }
        lemma_only_distinct(q.list(ks[i]), batch);
        assert(s.list(ks[i]) == without(q.list(ks[i]), batch));
        lemma_without_has_none(q.list(ks[i]), batch);
    }
    lemma_recorded_rows(s, row.versions, ks, batch);
    let m = s.recorded_rows(row.versions, ks, batch);
    let es = in_order(item.entries.dom());
    assert forall|i: int| 0 <= i < es.len() implies holds_version(
        m.list(item.entries[#[trigger] es[i]].path),
        batch,
        item.entries[es[i]].version,
    ) by {
        let x = es[i];
        assert(item.entries.dom().contains(x));
        assert(item.entries.contains_key(x));
        assert(item.entries[x].path == x);
        assert(ks.contains(x));
        assert(extended(s.list(x), m.list(x), row.versions[x], batch));
        assert(holds_version(q.list(x), batch, q.items[batch].entries[x].version));
        let j = choose|j: int|
            0 <= j < q.list(x).len() && (#[trigger] q.list(x)[j]).0 == batch && q.list(
                x,
            )[j].1.version == item.entries[x].version;
        assert(q.versions.contains_key(x));
        lemma_only(q.list(x), batch, q.arrivals);
        assert(only(q.list(x), batch).contains(q.list(x)[j].1));
        let l = only(q.list(x), batch);
        let n = choose|n: int| 0 <= n < l.len() && l[n] == q.list(x)[j].1;
        assert(row.versions[x][n].version == item.entries[x].version);
    }
    lemma_recorded_all_again(m, item.entries, es, batch);
    assert(!m.items.contains_key(batch));
    assert(t.items =~= q.items);
    assert(t.list(p) == m.list(p));
    lemma_without_has_none(q.list(p), batch);
    if ks.contains(p) {
        assert(extended(s.list(p), m.list(p), row.versions[p], batch));
        assert(item.entries.dom().contains(p));
        assert(marks(only(s.list(p), batch)) =~= Seq::empty());
        assert(marks(only(t.list(p), batch)) =~= marks(only(q.list(p), batch)));
    } else {
        assert(m.list(p) == s.list(p));
        assert(!item.entries.dom().contains(p));
        assert forall|i: int| 0 <= i < q.list(p).len() implies (#[trigger] q.list(p)[i]).0
            != batch by {
            assert(q.versions[p][i].0 == q.list(p)[i].0);
        }
        lemma_none_of_batch(q.list(p), batch);
        assert(t.list(p).take(t.list(p).len() as int) =~= t.list(p));
    }
}

/// What a path holds once an item is released: everything but the item's versions.
proof fn lemma_released_list(q: QuarantineView, batch: BatchId, p: Seq<u8>)
    requires
        sound(q),
        q.items.contains_key(batch),
    ensures
        q.denial(batch).list(p) == without(q.list(p), batch),
{
    let t = q.released(batch);
    if q.versions.contains_key(p) {
        if q.items[batch].entries.contains_key(p) {
            if without(q.versions[p], batch).len() == 0 {
                assert(t.list(p) =~= without(q.list(p), batch));
            }
        } else {
            assert forall|i: int| 0 <= i < q.list(p).len() implies (#[trigger] q.list(p)[i]).0
                != batch by {
                assert(q.versions[p][i].0 == q.list(p)[i].0);
            }
            lemma_none_of_batch(q.list(p), batch);
        }
    } else {
        assert(t.list(p) =~= without(q.list(p), batch));
    }
}

} // verus!
