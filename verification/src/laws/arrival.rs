//! The order of arrival in the quarantine: every operation keeps it, while arrival numbers last.

use crate::entry::EntryView;
use crate::id::BatchId;
use crate::index::next_number;
use crate::laws::filing::{
    filed, law_denial_filed, law_hold_filed, law_initial_filed, law_join_filed, law_joins_filed,
    law_release_filed, law_return_filed,
};
use crate::laws::quarantine::{
    item_sound, law_rebuilt_from_rows, law_recorded_once, lemma_without, lemma_without_unrepeated,
    ordered, rising, sound, unrepeated,
};
use crate::order::in_order;
use crate::quarantine::{
    holds_version, Arrivals, HeldItemView, HeldRowView, HeldState, QuarantineView, QuarantinedView,
};
use crate::version::Vector;
use vstd::prelude::*;

verus! {

/// Whether versions are in the order of arrival as long as arrival numbers have not run out.
pub open spec fn lasting(q: QuarantineView) -> bool {
    q.arrivals < u64::MAX ==> ordered(q)
}

/// What always holds of a quarantine: everything is filed where it is found again, and versions are
/// in the order of arrival while arrival numbers last.
pub open spec fn intact(q: QuarantineView) -> bool {
    filed(q) && lasting(q)
}

/// While arrival numbers last, a quarantine is sound.
pub proof fn law_intact_is_sound(q: QuarantineView)
    requires
        intact(q),
        q.arrivals < u64::MAX,
    ensures
        sound(q),
{
    assert forall|p: Seq<u8>, i: int|
        q.versions.contains_key(p) && 0 <= i < q.versions[p].len() implies {
        let b = (#[trigger] q.versions[p][i]).0;
        Some(b) == None::<BatchId> || (q.items.contains_key(b) && q.items[b].entries.contains_key(
            p,
        ))
    } by {
        assert(q.list(p)[i] == q.versions[p][i]);
    }
}

proof fn lemma_recorded(
    q: QuarantineView,
    path: Seq<u8>,
    version: Vector,
    stamp: i64,
    batch: BatchId,
)
    requires
        lasting(q),
    ensures
        lasting(q.recorded(path, version, stamp, batch)),
        q.arrivals <= q.recorded(path, version, stamp, batch).arrivals,
{
    let t = q.recorded(path, version, stamp, batch);
    if q.arrivals < u64::MAX && !holds_version(q.list(path), batch, version) {
        let old_list = q.list(path);
        let new_list = t.list(path);
        let n = old_list.len() as int;
        assert forall|p: Seq<u8>| #[trigger] t.versions.contains_key(p) implies t.versions[p].len()
            > 0 && rising(t.versions[p], t.arrivals) && unrepeated(t.versions[p]) by {
            if q.versions.contains_key(p) {
                assert(rising(q.versions[p], q.arrivals));
            }
            law_recorded_once(q, path, version, stamp, batch, p);
            if p == path {
                assert forall|i: int, j: int| 0 <= i < j < new_list.len() implies (
                #[trigger] new_list[i]).1.arrival < (#[trigger] new_list[j]).1.arrival by {
                    assert(new_list[i] == old_list[i]);
                    if j < n {
                        assert(new_list[j] == old_list[j]);
                    }
                }
                assert forall|i: int| 0 <= i < new_list.len() implies (
                #[trigger] new_list[i]).1.arrival <= t.arrivals by {
                    if i < n {
                        assert(new_list[i] == old_list[i]);
                    }
                }
            } else {
                assert forall|i: int| 0 <= i < t.versions[p].len() implies (
                #[trigger] t.versions[p][i]).1.arrival <= t.arrivals by {
                    assert(q.versions[p][i].1.arrival <= q.arrivals);
                }
            }
        }
    }
}

proof fn lemma_recorded_all(
    q: QuarantineView,
    entries: Map<Seq<u8>, EntryView>,
    ks: Seq<Seq<u8>>,
    batch: BatchId,
)
    requires
        lasting(q),
    ensures
        lasting(q.recorded_all(entries, ks, batch)),
    decreases ks.len(),
{
    if ks.len() > 0 {
        lemma_recorded_all(q, entries, ks.drop_last(), batch);
        let e = entries[ks.last()];
        lemma_recorded(
            q.recorded_all(entries, ks.drop_last(), batch),
            e.path,
            e.version,
            e.stamp,
            batch,
        );
    }
}

proof fn lemma_joined(q: QuarantineView, batch: BatchId, entry: EntryView)
    requires
        lasting(q),
    ensures
        lasting(q.joined(batch, entry)),
{
    lemma_recorded(q, entry.path, entry.version, entry.stamp, batch);
    let s = q.recorded(entry.path, entry.version, entry.stamp, batch);
    let t = q.joined(batch, entry);
    if q.items.contains_key(batch) {
        assert(t.versions == s.versions && t.arrivals == s.arrivals);
    }
}

proof fn lemma_joined_all(
    q: QuarantineView,
    entries: Map<Seq<u8>, EntryView>,
    ks: Seq<Seq<u8>>,
    batch: BatchId,
)
    requires
        lasting(q),
    ensures
        lasting(q.joined_all(entries, ks, batch)),
    decreases ks.len(),
{
    if ks.len() > 0 {
        lemma_joined_all(q, entries, ks.drop_last(), batch);
        lemma_joined(q.joined_all(entries, ks.drop_last(), batch), batch, entries[ks.last()]);
    }
}

proof fn lemma_held(q: QuarantineView, item: HeldItemView)
    requires
        lasting(q),
    ensures
        lasting(q.held(item)),
{
    let ks = in_order(item.entries.dom());
    lemma_joined_all(q, item.entries, ks, item.batch);
    lemma_recorded_all(q, item.entries, ks, item.batch);
    let s = q.recorded_all(item.entries, ks, item.batch);
    let t = q.held(item);
    if !q.items.contains_key(item.batch) {
        assert(t.versions == s.versions && t.arrivals == s.arrivals);
    }
}

proof fn lemma_released(q: QuarantineView, batch: BatchId)
    requires
        lasting(q),
    ensures
        lasting(q.released(batch)),
        q.released(batch).arrivals == q.arrivals,
{
    if q.items.contains_key(batch) && q.arrivals < u64::MAX {
        let t = q.released(batch);
        assert(t.versions.dom().subset_of(q.versions.dom()));
        vstd::set_lib::lemma_set_subset_finite(q.versions.dom(), t.versions.dom());
        assert forall|p: Seq<u8>| #[trigger] t.versions.contains_key(p) implies t.versions[p].len()
            > 0 && rising(t.versions[p], t.arrivals) && unrepeated(t.versions[p]) by {
            assert(q.versions.contains_key(p));
            lemma_without(q.versions[p], batch, q.arrivals);
            lemma_without_unrepeated(q.versions[p], batch);
        }
    }
}

proof fn lemma_recorded_again(
    q: QuarantineView,
    path: Seq<u8>,
    list: Seq<QuarantinedView>,
    batch: BatchId,
)
    requires
        lasting(q),
    ensures
        lasting(q.recorded_again(path, list, batch)),
    decreases list.len(),
{
    if list.len() > 0 {
        lemma_recorded_again(q, path, list.drop_last(), batch);
        lemma_recorded(
            q.recorded_again(path, list.drop_last(), batch),
            path,
            list.last().version,
            list.last().stamp,
            batch,
        );
    }
}

proof fn lemma_recorded_rows(
    q: QuarantineView,
    versions: Map<Seq<u8>, Seq<QuarantinedView>>,
    ks: Seq<Seq<u8>>,
    batch: BatchId,
)
    requires
        lasting(q),
    ensures
        lasting(q.recorded_rows(versions, ks, batch)),
    decreases ks.len(),
{
    if ks.len() > 0 {
        lemma_recorded_rows(q, versions, ks.drop_last(), batch);
        lemma_recorded_again(
            q.recorded_rows(versions, ks.drop_last(), batch),
            ks.last(),
            versions[ks.last()],
            batch,
        );
    }
}

proof fn lemma_returned(q: QuarantineView, denied: Map<u64, HeldRowView>, ks: Seq<u64>)
    requires
        lasting(q),
    ensures
        lasting(q.returned(denied, ks)),
    decreases ks.len(),
{
    if ks.len() > 0 {
        lemma_returned(q, denied, ks.drop_last());
        let row = denied[ks.last()];
        let s0 = q.returned(denied, ks.drop_last());
        let s = s0.noted(row.item.batch, HeldState::Denied { at: ks.last() });
        assert(s.versions == s0.versions && s.arrivals == s0.arrivals);
        let vs = in_order(row.versions.dom());
        lemma_recorded_rows(s, row.versions, vs, row.item.batch);
        lemma_held(s.recorded_rows(row.versions, vs, row.item.batch), row.item);
    }
}

// ---- every operation --------------------------------------------------------

/// A new quarantine is intact.
pub proof fn law_initial_intact()
    ensures
        intact(QuarantineView::initial()),
{
    law_initial_filed();
}

/// An entry that joins keeps the quarantine intact, whatever it joins.
pub proof fn law_join_intact(q: QuarantineView, batch: BatchId, entry: EntryView)
    requires
        intact(q),
    ensures
        intact(q.joined(batch, entry)),
{
    law_join_filed(q, batch, entry);
    lemma_joined(q, batch, entry);
}

/// Entries that join keep the quarantine intact.
pub proof fn law_joins_intact(
    q: QuarantineView,
    entries: Map<Seq<u8>, EntryView>,
    ks: Seq<Seq<u8>>,
    batch: BatchId,
)
    requires
        intact(q),
    ensures
        intact(q.joined_all(entries, ks, batch)),
{
    law_joins_filed(q, entries, ks, batch);
    lemma_joined_all(q, entries, ks, batch);
}

/// Holding keeps the quarantine intact, under a new identifier or one that is held already; every entry
/// of the item is held under it, and recorded.
pub proof fn law_hold_intact(q: QuarantineView, item: HeldItemView)
    requires
        intact(q),
        item_sound(item),
    ensures
        intact(q.held(item)),
        q.held(item).items.contains_key(item.batch),
        forall|p: Seq<u8>| #[trigger]
            item.entries.contains_key(p) ==> q.held(item).items[item.batch].entries.contains_key(p)
                && holds_version(q.held(item).list(p), item.batch, item.entries[p].version),
        !q.items.contains_key(item.batch) ==> q.held(item).items[item.batch] == item,
{
    law_hold_filed(q, item);
    lemma_held(q, item);
}

/// Releasing keeps the quarantine intact.
pub proof fn law_release_intact(q: QuarantineView, batch: BatchId)
    requires
        intact(q),
    ensures
        intact(q.released(batch)),
{
    law_release_filed(q, batch);
    lemma_released(q, batch);
}

/// Denying keeps the quarantine intact.
pub proof fn law_denial_intact(q: QuarantineView, batch: BatchId)
    requires
        intact(q),
    ensures
        intact(q.denial(batch)),
{
    law_denial_filed(q, batch);
    lemma_released(q, batch);
    let s = q.released(batch);
    let t = q.denial(batch);
    if q.items.contains_key(batch) && t.arrivals < u64::MAX {
        assert(t.arrivals == next_number(s.arrivals));
        assert forall|p: Seq<u8>| #[trigger] t.versions.contains_key(p) implies t.versions[p].len()
            > 0 && rising(t.versions[p], t.arrivals) && unrepeated(t.versions[p]) by {
            assert(s.versions.contains_key(p));
            assert(rising(s.versions[p], s.arrivals));
            assert forall|i: int| 0 <= i < t.versions[p].len() implies (
            #[trigger] t.versions[p][i]).1.arrival <= t.arrivals by {
                assert(s.versions[p][i].1.arrival <= s.arrivals);
            }
        }
    }
}

/// Putting denied items back keeps the quarantine intact, and so does forgetting them.
pub proof fn law_return_intact(q: QuarantineView)
    requires
        intact(q),
    ensures
        intact(q.all_returned()),
        intact(q.forgotten()),
{
    law_return_filed(q);
    let s = QuarantineView { denied: Map::empty(), ..q };
    assert(s.versions == q.versions && s.arrivals == q.arrivals);
    lemma_returned(s, q.denied, in_order(q.denied.dom()));
    assert(q.forgotten().versions == q.versions);
}

proof fn lemma_rising_at(list: Arrivals, limit: u64, i: int)
    requires
        rising(list, limit),
        0 <= i < list.len(),
    ensures
        i <= list[i].1.arrival,
    decreases i,
{
    if i > 0 {
        lemma_rising_at(list, limit, i - 1);
        assert(list[i - 1].1.arrival < list[i].1.arrival);
    }
}

/// While arrival numbers last, a quarantine rebuilt from its rows and its arrival number is the
/// one that they came from, with nothing noted as changed.
pub proof fn law_intact_rebuilds(q: QuarantineView)
    requires
        intact(q),
        q.arrivals < u64::MAX,
    ensures
        QuarantineView::rebuilt(q.rows(), q.arrivals) == (QuarantineView {
            changed: Set::empty(),
            ..q
        }),
{
    law_intact_is_sound(q);
    assert forall|p: Seq<u8>| #[trigger] q.versions.contains_key(p) implies q.versions[p].len()
        <= u64::MAX by {
        let list = q.versions[p];
        assert(rising(list, q.arrivals));
        lemma_rising_at(list, q.arrivals, list.len() - 1);
        assert(list[list.len() - 1].1.arrival <= q.arrivals);
    }
    law_rebuilt_from_rows(q);
}

} // verus!
