//! Where each entry of a batch goes, and how the batch is answered.

use crate::batch::{
    apply_set_of, classified, fallbacks_among, items_among, last_by_path, BatchDecisionView,
    BatchRole, BatchView, DecisionView, ItemView,
};
use crate::brake::{verdict, weight, Verdict};
use crate::engine_view::{receive_actions, ActionView, OutboundView};
use crate::entry::EntryView;
use crate::folder::DeferredReason;
use crate::folder_view::{
    by_path, items_of, paired, raws_for, raws_of, CandidateView, DeferredView, FolderView,
    Receiving, Sorting, StatusView,
};
use crate::id::{BatchId, NodeId};
use crate::index::IndexView;
use crate::laws::counting::{
    held_at_end, law_too_much_is_held, law_tracked_are_counted, too_much, tracked_paths,
};
use crate::laws::sourcing::holds_all;
use crate::order::in_order;
use crate::quarantine::{first_match, Arrivals, HeldItemView, QuarantineView};
use crate::time::Timestamp;
use crate::version::{covers, Vector};
use crate::want::WantListView;
use vstd::prelude::*;

verus! {

/// Whether a version, or a later one, is wanted at a path.
pub open spec fn wanted_already(w: WantListView, p: Seq<u8>, v: Vector) -> bool {
    w.wants.contains_key(p) && (w.wants[p].entry.version == v || (holds_all(
        w.wants[p].entry.version,
        v,
    ) && !holds_all(v, w.wants[p].entry.version)))
}

/// Whether a version is one that is quarantined in a list, or a later one.
pub open spec fn follows_held(list: Arrivals, v: Vector) -> bool {
    exists|i: int| 0 <= i < list.len() && holds_all(v, (#[trigger] list[i]).1.version)
}

proof fn lemma_covers(a: Vector, b: Vector)
    ensures
        covers(a, b) <==> holds_all(a, b),
{
}

/// A later version of something quarantined belongs to the item whose version arrived first of
/// those that it holds.
pub proof fn law_first_match_exactly(list: Arrivals, v: Vector)
    ensures
        first_match(list, v) is Some <==> follows_held(list, v),
        first_match(list, v) is Some ==> exists|i: int|
            0 <= i < list.len() && (#[trigger] list[i]).0 == first_match(list, v)->0 && holds_all(
                v,
                list[i].1.version,
            ) && forall|j: int| 0 <= j < i ==> !holds_all(v, (#[trigger] list[j]).1.version),
    decreases list.len(),
{
    if list.len() > 0 {
        let t = list.drop_last();
        let z = list.len() - 1;
        law_first_match_exactly(t, v);
        assert(list[z] == list.last());
        lemma_covers(v, list.last().1.version);
        assert forall|i: int| 0 <= i < t.len() implies t[i] == #[trigger] list[i] by {}
        if first_match(t, v) is Some {
            let i = choose|i: int|
                0 <= i < t.len() && (#[trigger] t[i]).0 == first_match(t, v)->0 && holds_all(
                    v,
                    t[i].1.version,
                ) && forall|j: int| 0 <= j < i ==> !holds_all(v, (#[trigger] t[j]).1.version);
            assert(list[i] == t[i]);
            assert forall|j: int| 0 <= j < i implies !holds_all(
                v,
                (#[trigger] list[j]).1.version,
            ) by {
                assert(t[j] == list[j]);
            }
        } else {
            assert forall|j: int| 0 <= j < t.len() implies !holds_all(
                v,
                (#[trigger] list[j]).1.version,
            ) by {
                assert(t[j] == list[j]);
            }
            if holds_all(v, list[z].1.version) {
                assert(list[z].0 == first_match(list, v)->0);
            }
        }
    }
}

/// What becomes of one item of a batch: what is wanted already, or something later, is only
/// counted; what follows a quarantined version joins it; at a path with a pending change of a
/// paused folder it waits, as it was received; anything else goes on to the brake.
pub proof fn law_item_is_sorted(
    r: Receiving,
    item: ItemView,
    raw: Map<Seq<u8>, EntryView>,
    batch: BatchView,
)
    requires
        raw.contains_key(item.entry.path),
    ensures
        ({
            let p = item.entry.path;
            let s = r.folder;
            let t = r.sort(item, raw, batch);
            let list = s.quarantine.list(raw[p].path);
            if wanted_already(s.wants, p, item.entry.version) {
                t == (Receiving { already_wanted: r.already_wanted + 1, ..r })
            } else if follows_held(list, raw[p].version) {
                let held = first_match(list, raw[p].version)->0;
                t == (Receiving {
                    folder: FolderView { quarantine: s.quarantine.joined(held, raw[p]), ..s },
                    joined: r.joined + 1,
                    ..r
                })
            } else if s.paused is Some && s.index.pending.contains_key(p) {
                &&& t.frozen == r.frozen + 1
                &&& t == (Receiving { frozen: t.frozen, folder: t.folder, ..r })
                &&& t.folder == (FolderView { deferred: t.folder.deferred, ..s })
                &&& t.folder.deferred == s.deferred.insert(
                    p,
                    (if s.deferred.contains_key(p) {
                        s.deferred[p]
                    } else {
                        Seq::empty()
                    }).push(
                        DeferredView {
                            entry: raw[p],
                            batch: batch.id,
                            source: batch.source,
                            seq_high: batch.seq_high,
                            reason: DeferredReason::Frozen,
                        },
                    ),
                )
            } else {
                t == (Receiving { kept: r.kept.push(item), ..r })
            }
        }),
{
    let p = item.entry.path;
    let s = r.folder;
    law_first_match_exactly(s.quarantine.list(raw[p].path), raw[p].version);
    lemma_covers(s.wants.wants[p].entry.version, item.entry.version);
    lemma_covers(item.entry.version, s.wants.wants[p].entry.version);
}

/// Whether one more is counted for an item, and nothing else changes.
pub open spec fn one_more(
    a: Map<BatchId, usize>,
    b: Map<BatchId, usize>,
    batch: BatchId,
) -> bool {
    &&& b.dom() =~= a.dom().insert(batch)
    &&& !a.contains_key(batch) ==> b[batch] == 1
    &&& a.contains_key(batch) && a[batch] < usize::MAX ==> b[batch] == a[batch] + 1
    &&& forall|k: BatchId| k != batch ==> #[trigger] b[k] == a[k]
}

/// What becomes of one candidate for the want-list: what is wanted already, or something later,
/// only names a source; what follows a quarantined version joins it; under the brake so does what
/// comes of a batch that is held; anything else stands with the rest of its batch, to meet the
/// brake together.
pub proof fn law_candidate_is_sorted(s: Sorting, c: CandidateView, brake: bool)
    ensures
        ({
            let p = c.item.entry.path;
            let v = c.item.entry.version;
            let t = s.sort(c, brake);
            let list = s.quarantine.list(c.raw.path);
            let k = ((c.batch, c.source), c.seq_high);
            if wanted_already(s.wants, p, v) {
                t == (Sorting { wants: s.wants.announced(p, v, c.source), ..s })
            } else if follows_held(list, c.raw.version) {
                let held = first_match(list, c.raw.version)->0;
                t == (Sorting {
                    quarantine: s.quarantine.joined(held, c.raw),
                    joined: t.joined,
                    ..s
                }) && one_more(s.joined, t.joined, held)
            } else if brake && s.quarantine.items.contains_key(c.batch) {
                t == (Sorting {
                    quarantine: s.quarantine.joined(c.batch, c.raw),
                    joined: t.joined,
                    ..s
                }) && one_more(s.joined, t.joined, c.batch)
            } else {
                &&& t == (Sorting { groups: t.groups, ..s })
                &&& t.groups.dom() =~= s.groups.dom().insert(k)
                &&& t.groups[k].len() > 0
                &&& t.groups[k].last() == (c.item, c.raw)
                &&& s.groups.contains_key(k) ==> t.groups[k].drop_last() =~= s.groups[k]
                &&& !s.groups.contains_key(k) ==> t.groups[k].len() == 1
                &&& forall|j: ((BatchId, NodeId), u64)|
                    j != k ==> #[trigger] t.groups[j] == s.groups[j]
            }
        }),
{
    let p = c.item.entry.path;
    law_first_match_exactly(s.quarantine.list(c.raw.path), c.raw.version);
    lemma_covers(s.wants.wants[p].entry.version, c.item.entry.version);
    lemma_covers(c.item.entry.version, s.wants.wants[p].entry.version);
}

/// What comes of one batch meets the brake together: under the brake, and if it is too much for
/// what is there, all of it is held, as it was received, under its batch and with its sender, and
/// nothing of it is wanted; else it is wanted, and nothing of it is held. Either way the index
/// stays as it is.
pub proof fn law_group_is_held_or_wanted(
    f: FolderView,
    now: Timestamp,
    k: ((BatchId, NodeId), u64),
    group: Seq<(ItemView, EntryView)>,
    brake: bool,
)
    requires
        f.index.records.dom().finite(),
        tracked_paths(f.index).len() <= usize::MAX,
    ensures
        ({
            let g = f.admit_group(now, k, group, brake);
            let pairs = by_path(group);
            &&& if brake && too_much(f.rules, f.index, items_of(pairs)) {
                &&& g.wants == f.wants
                &&& g.deferred == f.deferred
                &&& g.quarantine.items.contains_key(k.0.0)
                &&& !f.quarantine.items.contains_key(k.0.0) ==> {
                    let item = g.quarantine.items[k.0.0];
                    &&& item.batch == k.0.0
                    &&& item.source == k.0.1
                    &&& item.seq_high == k.1
                    &&& item.held_at == now
                    &&& item.entries == raws_of(pairs)
                    &&& g.statuses.len() == f.statuses.len() + 1
                    &&& g.statuses.last() is Held
                    &&& g.statuses.last()->Held_batch == k.0.0
                    &&& g.statuses.last()->Held_source == k.0.1
                    &&& g.statuses.last()->Held_reason == item.reason
                    &&& g.statuses.last()->Held_summary == weight(f.index, items_of(pairs))
                    &&& verdict(
                        f.rules,
                        weight(f.index, items_of(pairs)),
                        tracked_paths(f.index).len() as usize,
                    ) == Verdict::Hold(item.reason)
                    &&& g.statuses.last()->Held_paths == pairs.len()
                }
                &&& f.quarantine.items.contains_key(k.0.0) ==> g.statuses == f.statuses.push(
                    StatusView::JoinedHeld { batch: k.0.0, count: pairs.len() },
                )
            } else {
                &&& g == f.wanting_all(pairs, k.0.0, k.0.1, k.1)
                &&& g.quarantine == f.quarantine
                &&& g.statuses == f.statuses
            }
            &&& g.index == f.index
            &&& g.window == f.window
            &&& g.paused == f.paused
        }),
{
    reveal(FolderView::admit_group);
    let pairs = by_path(group);
    law_too_much_is_held(f.rules, f.index, items_of(pairs));
    law_tracked_are_counted(f.index);
    lemma_wanting_all_keeps(f, pairs, k.0.0, k.0.1, k.1);
    let raws = raws_of(pairs);
    lemma_joined_all_items(f.quarantine, raws, in_order(raws.dom()), k.0.0);
}

proof fn lemma_joined_all_items(
    q: QuarantineView,
    entries: Map<Seq<u8>, EntryView>,
    ks: Seq<Seq<u8>>,
    batch: BatchId,
)
    ensures
        q.joined_all(entries, ks, batch).items.dom() =~= q.items.dom(),
    decreases ks.len(),
{
    if ks.len() > 0 {
        lemma_joined_all_items(q, entries, ks.drop_last(), batch);
    }
}

proof fn lemma_wanting_all_keeps(
    f: FolderView,
    pairs: Seq<(ItemView, EntryView)>,
    batch: BatchId,
    source: NodeId,
    seq_high: u64,
)
    ensures
        ({
            let g = f.wanting_all(pairs, batch, source, seq_high);
            g == (FolderView { wants: g.wants, deferred: g.deferred, ..f })
        }),
    decreases pairs.len(),
{
    if pairs.len() > 0 {
        lemma_wanting_all_keeps(f, pairs.drop_last(), batch, source, seq_high);
    }
}

/// An item that passed is wanted; where the want-list refuses it, its entry waits, behind what
/// waits there, for the next observation of the path.
pub proof fn law_passed_is_wanted_or_waits(
    f: FolderView,
    item: ItemView,
    raw: EntryView,
    batch: BatchId,
    source: NodeId,
    seq_high: u64,
)
    ensures
        ({
            let g = f.wanting(item, raw, batch, source, seq_high);
            let p = item.entry.path;
            &&& g == (FolderView { wants: g.wants, deferred: g.deferred, ..f })
            &&& g.wants == f.wants.inserted(item, raw, batch, source, seq_high)
            &&& !f.wants.refuses(item) ==> g.deferred == f.deferred
            &&& f.wants.refuses(item) ==> g.deferred == f.deferred.insert(
                p,
                (if f.deferred.contains_key(p) {
                    f.deferred[p]
                } else {
                    Seq::empty()
                }).push(
                    DeferredView {
                        entry: item.entry,
                        batch,
                        source,
                        seq_high,
                        reason: DeferredReason::ChangedUnderneath,
                    },
                ),
            )
        }),
{
}

// ---- the whole batch --------------------------------------------------------

/// A batch is held exactly if what is left of it to decide on is too much for what is there. Then
/// what is left is held as it was received, under the batch and with its sender, and the answer
/// gives the reason; else it is wanted, and the answer is that it was accepted.
pub proof fn law_batch_is_held_or_wanted(f: FolderView, now: Timestamp, batch: BatchView)
    requires
        f.index.records.dom().finite(),
        tracked_paths(f.index).len() <= usize::MAX,
    ensures
        ({
            let s = f.receiving(batch).folder;
            let left = f.receiving(batch).kept;
            let r = f.received(now, batch);
            let raw = last_by_path(batch.entries);
            &&& r.received.held is Some <==> too_much(f.rules, f.index, left)
            &&& r.received.set.items == left
            &&& r.received.joined == f.receiving(batch).joined
            &&& r.received.frozen == f.receiving(batch).frozen
            &&& r.received.already_wanted == f.receiving(batch).already_wanted
            &&& r.received.summary == weight(f.index, left)
            &&& r.received.set.fallbacks == apply_set_of(f.index, batch).fallbacks
            &&& r.received.set.duplicates == apply_set_of(f.index, batch).duplicates
            &&& r.received.set.ignored == apply_set_of(f.index, batch).ignored
            &&& r.folder.winner_fallbacks == held_at_end(
                f.winner_fallbacks + apply_set_of(f.index, batch).fallbacks,
            )
            &&& r.received.held is Some ==> {
                let reason = r.received.held->0;
                &&& verdict(
                    f.rules,
                    weight(f.index, left),
                    tracked_paths(f.index).len() as usize,
                ) == Verdict::Hold(reason)
                &&& r.received.decision == (DecisionView::Held { reason: reason.text() })
                &&& r.folder == (FolderView { quarantine: r.folder.quarantine, ..s })
                &&& r.folder.quarantine.items.contains_key(batch.id)
                &&& !s.quarantine.items.contains_key(batch.id) ==> r.folder.quarantine.items[
                    batch.id] == (HeldItemView {
                    batch: batch.id,
                    source: batch.source,
                    seq_high: batch.seq_high,
                    held_at: now,
                    reason,
                    entries: raws_for(left, raw),
                })
            }
            &&& r.received.held is None ==> {
                &&& r.received.decision == DecisionView::Accepted
                &&& r.folder == s.wanting_all(
                    paired(left, raw),
                    batch.id,
                    batch.source,
                    batch.seq_high,
                )
            }
        }),
{
    let r = f.receiving(batch);
    lemma_receiving_index(f, batch);
    lemma_same_weight(f.rules, f.index, r.folder.index, r.kept);
    law_too_much_is_held(f.rules, f.index, r.kept);
    law_tracked_are_counted(f.index);
    let raw = last_by_path(batch.entries);
    let raws = raws_for(r.kept, raw);
    lemma_joined_all_items(r.folder.quarantine, raws, in_order(raws.dom()), batch.id);
    lemma_wanting_all_keeps(
        r.folder,
        paired(r.kept, raw),
        batch.id,
        batch.source,
        batch.seq_high,
    );
}

proof fn lemma_same_weight(
    rules: crate::rules::Rules,
    a: IndexView,
    b: IndexView,
    items: Seq<ItemView>,
)
    requires
        a.records == b.records,
    ensures
        weight(a, items) == weight(b, items),
        a.tracked_count() == b.tracked_count(),
    decreases items.len(),
{
    if items.len() > 0 {
        lemma_same_weight(rules, a, b, items.drop_last());
    }
}

proof fn lemma_same_items(
    a: IndexView,
    b: IndexView,
    m: Map<Seq<u8>, EntryView>,
    ks: Seq<Seq<u8>>,
)
    requires
        a.records == b.records,
    ensures
        items_among(a, m, ks) == items_among(b, m, ks),
        fallbacks_among(a, m, ks) == fallbacks_among(b, m, ks),
    decreases ks.len(),
{
    if ks.len() > 0 {
        lemma_same_items(a, b, m, ks.drop_last());
        assert(classified(a, m[ks.last()]) == classified(b, m[ks.last()]));
    }
}

proof fn lemma_sorted_keeps(
    r: Receiving,
    items: Seq<ItemView>,
    raw: Map<Seq<u8>, EntryView>,
    batch: BatchView,
)
    ensures
        ({
            let t = r.sort_all(items, raw, batch);
            t.folder == (FolderView {
                quarantine: t.folder.quarantine,
                deferred: t.folder.deferred,
                ..r.folder
            })
        }),
    decreases items.len(),
{
    if items.len() > 0 {
        lemma_sorted_keeps(r, items.drop_last(), raw, batch);
    }
}

proof fn lemma_sourced_keeps(
    f: FolderView,
    raw: Map<Seq<u8>, EntryView>,
    ks: Seq<Seq<u8>>,
    source: NodeId,
)
    ensures
        ({
            let t = f.sourced(raw, ks, source);
            t == (FolderView { wants: t.wants, ..f })
        }),
    decreases ks.len(),
{
    if ks.len() > 0 {
        lemma_sourced_keeps(f, raw, ks.drop_last(), source);
    }
}

proof fn lemma_receiving_index(f: FolderView, batch: BatchView)
    ensures
        f.receiving(batch).folder.index == f.index.received(
            batch.source,
            batch.seq_low,
            batch.seq_high,
        ),
        f.receiving(batch).folder.rules == f.rules,
        f.receiving(batch).folder.winner_fallbacks == held_at_end(
            f.winner_fallbacks + apply_set_of(f.index, batch).fallbacks,
        ),
        apply_set_of(
            f.index.received(batch.source, batch.seq_low, batch.seq_high),
            batch,
        ) == apply_set_of(f.index, batch),
{
    let s = FolderView {
        index: f.index.received(batch.source, batch.seq_low, batch.seq_high),
        ..f
    };
    let set = apply_set_of(s.index, batch);
    let raw = last_by_path(batch.entries);
    lemma_same_items(f.index, s.index, raw, in_order(raw.dom()));
    let c = s.counting(set.fallbacks);
    lemma_sourced_keeps(c, raw, in_order(raw.dom()), batch.source);
    let t = c.sourced(raw, in_order(raw.dom()), batch.source);
    lemma_sorted_keeps(
        Receiving { folder: t, kept: Seq::empty(), joined: 0, frozen: 0, already_wanted: 0 },
        set.items,
        raw,
        batch,
    );
}

/// Receiving a batch notes the range of the sender's numbers that it covers; every other sender's
/// stay as they were.
pub proof fn law_range_is_noted(s: IndexView, peer: NodeId, low: u64, high: u64, other: NodeId)
    ensures
        ({
            let t = s.received(peer, low, high);
            &&& t == (IndexView { peer_seq: t.peer_seq, ..s })
            &&& t.peer_seq.contains_key(peer)
            &&& t.watermark(peer) == s.watermark(peer).received(low, high)
            &&& other != peer ==> t.watermark(other) == s.watermark(other)
            &&& !s.peer_seq.contains_key(other) ==> s.watermark(other).contiguous == 0
                && s.watermark(other).ranges.dom() =~= Set::empty()
            &&& s.peer_seq.contains_key(other) ==> s.watermark(other) == s.peer_seq[other]
        }),
{
}

/// Every batch is answered to the one it came from: with the decision, and with how far that one's
/// numbers are held here without a gap; and it goes into history with the decision. What joined
/// held items, what the last rule decided, what was named again and that the batch is held is
/// reported, if there is any of it.
pub proof fn law_batch_is_answered(f: FolderView, now: Timestamp, from: NodeId, batch: BatchView)
    ensures
        ({
            let w = f.received(now, batch);
            let r = w.received;
            let a = receive_actions(f, now, from, batch);
            let n = a.len();
            let id = batch.folder;
            &&& n >= 2
            &&& a[n - 2] == (ActionView::Send {
                to: from,
                payload: OutboundView::Decision(
                    BatchDecisionView {
                        batch: batch.id,
                        folder: id,
                        decision: r.decision,
                        seq_high: w.folder.index.watermark(from).contiguous,
                    },
                ),
            })
            &&& a[n - 1] == (ActionView::RecordBatch {
                batch,
                role: BatchRole::Received,
                decision: Some(r.decision),
            })
            &&& forall|i: int| 0 <= i < n - 2 ==> (#[trigger] a[i]) is StatusChanged
            &&& n == 2 + (if r.set.fallbacks > 0 {
                1int
            } else {
                0
            }) + (if r.set.duplicates > 0 {
                1int
            } else {
                0
            }) + (if r.joined > 0 {
                1int
            } else {
                0
            }) + (if r.held is Some {
                1int
            } else {
                0
            })
            &&& r.set.fallbacks > 0 ==> a[0] == (ActionView::StatusChanged {
                folder: id,
                status: StatusView::WinnerFallback { count: w.folder.winner_fallbacks },
            })
            &&& r.set.duplicates > 0 ==> a.contains(
                ActionView::StatusChanged {
                    folder: id,
                    status: StatusView::DuplicatePaths {
                        batch: batch.id,
                        count: r.set.duplicates,
                    },
                },
            )
            &&& r.joined > 0 ==> a.contains(
                ActionView::StatusChanged {
                    folder: id,
                    status: StatusView::JoinedHeld { batch: batch.id, count: r.joined },
                },
            )
            &&& r.held is Some ==> a[n - 3] == (ActionView::StatusChanged {
                folder: id,
                status: StatusView::Held {
                    batch: batch.id,
                    source: batch.source,
                    reason: r.held->0,
                    summary: r.summary,
                    paths: r.set.items.len(),
                },
            })
        }),
{
    let w = f.received(now, batch);
    let r = w.received;
    let a = receive_actions(f, now, from, batch);
    let id = batch.folder;
    let x: int = if r.set.fallbacks > 0 {
        1
    } else {
        0
    };
    let y: int = if r.set.duplicates > 0 {
        1
    } else {
        0
    };
    if r.set.duplicates > 0 {
        assert(a[x] == (ActionView::StatusChanged {
            folder: id,
            status: StatusView::DuplicatePaths { batch: batch.id, count: r.set.duplicates },
        }));
    }
    if r.joined > 0 {
        assert(a[x + y] == (ActionView::StatusChanged {
            folder: id,
            status: StatusView::JoinedHeld { batch: batch.id, count: r.joined },
        }));
    }
}

} // verus!
