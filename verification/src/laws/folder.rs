//! Laws of a folder.

use crate::batch::{
    apply_set_of, classified, last_by_path, law_formation_chains, ApplyMode, BatchView,
    DecisionView, ItemView,
};
use crate::entry::EntryView;
use crate::folder::{ApplyOutcome, DeferredReason, Expected, ScanState};
use crate::folder_view::{
    as_candidates, by_path, candidates_of, commit_step, fallbacks_of, frozen_among, paired,
    released_among, taken, thawed, ApprovedView, CandidateView, DisplaceView, FetchedView,
    FolderView, Groups, HostStepView, Receiving, Sorting, TickedView, WithChanges, WithSteps,
};
use crate::id::{BatchId, NodeId};
use crate::index::{join_all, ChangeKind, IndexView, RecordView, RevertedView};
use crate::laws::index::{
    law_adopted_well_formed, law_bump_dominates, law_catchup_never_leaks, law_observe_well_formed,
    law_settling_well_formed, law_written_well_formed,
};
use crate::order::{in_order, lemma_order_facts};
use crate::quarantine::{max_stamp, versions_in};
use crate::rules::Rules;
use crate::time::{Timestamp, WINDOW_NANOS};
use crate::version::{counter_of, relation, Relation, Vector};
use crate::want::{FetchReport, Tier, WantStepView, WantView};
use vstd::prelude::*;

verus! {

// ---- what letting entries in leaves alone -----------------------------------

/// Whether two states of a folder differ in what is wanted, waits, is held or is reported only.
pub open spec fn queues_only(a: FolderView, b: FolderView) -> bool {
    b == (FolderView {
        wants: b.wants,
        quarantine: b.quarantine,
        deferred: b.deferred,
        statuses: b.statuses,
        winner_fallbacks: b.winner_fallbacks,
        ..a
    })
}

proof fn lemma_wanting_all(
    f: FolderView,
    pairs: Seq<(ItemView, EntryView)>,
    batch: BatchId,
    source: NodeId,
    seq_high: u64,
)
    ensures
        queues_only(f, f.wanting_all(pairs, batch, source, seq_high)),
    decreases pairs.len(),
{
    if pairs.len() > 0 {
        lemma_wanting_all(f, pairs.drop_last(), batch, source, seq_high);
    }
}

proof fn lemma_admit_groups(
    f: FolderView,
    now: Timestamp,
    groups: Groups,
    ks: Seq<((BatchId, NodeId), u64)>,
    brake: bool,
)
    ensures
        queues_only(f, f.admit_groups(now, groups, ks, brake)),
    decreases ks.len(),
{
    if ks.len() > 0 {
        lemma_admit_groups(f, now, groups, ks.drop_last(), brake);
        let g = f.admit_groups(now, groups, ks.drop_last(), brake);
        let k = ks.last();
        reveal(FolderView::admit_group);
        lemma_wanting_all(g, by_path(groups[k]), k.0.0, k.0.1, k.1);
    }
}

/// Letting entries in, with the brake or without, changes no record, no window, no pause and
/// nothing that was acknowledged: only what is wanted, waits, is held or is reported.
pub proof fn law_letting_in_writes_nothing(
    f: FolderView,
    now: Timestamp,
    cs: Seq<CandidateView>,
    brake: bool,
)
    ensures
        queues_only(f, f.let_in(now, cs, brake)),
{
    reveal(FolderView::let_in);
    let t = f.sorted_out(cs, brake);
    let g = FolderView {
        wants: t.wants,
        quarantine: t.quarantine,
        statuses: f.statuses + crate::folder_view::joined_statuses(
            t.joined,
            in_order(t.joined.dom()),
        ),
        ..f
    };
    lemma_admit_groups(g, now, t.groups, in_order(t.groups.dom()), brake);
}

proof fn lemma_naming(f: FolderView, path: Seq<u8>, version: Vector, by: Seq<NodeId>)
    ensures
        queues_only(f, f.naming(path, version, by)),
    decreases by.len(),
{
    if by.len() > 0 {
        lemma_naming(f, path, version, by.drop_last());
    }
}

proof fn lemma_rederived(
    f: FolderView,
    now: Timestamp,
    path: Seq<u8>,
    old: WantView,
    entry: EntryView,
)
    ensures
        queues_only(f, f.rederived(now, path, old, entry)),
{
    reveal(FolderView::rederived);
    let c = classified(f.index, entry);
    let s = FolderView { wants: f.wants.removed(path), ..f }.counting(
        if c.fallback {
            1
        } else {
            0
        },
    );
    if c.item is Some {
        let cs = seq![
            CandidateView {
                item: c.item->0,
                raw: old.received,
                batch: old.batch,
                source: old.source,
                seq_high: old.seq_high,
            },
        ];
        law_letting_in_writes_nothing(s, now, cs, true);
        lemma_naming(
            s.let_in(now, cs, true),
            path,
            old.entry.version,
            in_order(old.sources),
        );
    }
}

/// What is wanted at a path, and what waits there, can be derived anew without writing anything.
pub proof fn law_deriving_anew_writes_nothing(
    f: FolderView,
    now: Timestamp,
    path: Seq<u8>,
    reason: DeferredReason,
)
    ensures
        queues_only(f, f.reclassified(now, path)),
        queues_only(f, f.redone(now, path)),
        queues_only(f, f.reconsidered(now, path, reason)),
        queues_only(f, f.unfrozen(now)),
{
    if f.wants.get(path) is Some {
        let old = f.wants.get(path)->0;
        lemma_rederived(f, now, path, old, old.entry);
        lemma_rederived(f, now, path, old, old.received);
    }
    reveal(FolderView::reconsidered);
    reveal(FolderView::unfrozen);
    if f.deferred.contains_key(path) {
        let list = f.deferred[path];
        let rest = crate::folder_view::kept(list, reason);
        let g = FolderView {
            deferred: if rest.len() > 0 {
                f.deferred.insert(path, rest)
            } else {
                f.deferred.remove(path)
            },
            ..f
        };
        let l = taken(list, reason);
        law_letting_in_writes_nothing(
            g.counting(fallbacks_of(g.index, l)),
            now,
            candidates_of(g.index, l),
            true,
        );
    }
    let g = FolderView { deferred: thawed(f.deferred), ..f };
    let l = frozen_among(f.deferred, in_order(f.deferred.dom()));
    law_letting_in_writes_nothing(
        g.counting(fallbacks_of(g.index, l)),
        now,
        candidates_of(g.index, l),
        true,
    );
}

/// Classifying again what waits at some paths writes nothing.
pub proof fn lemma_reconsidered_all(f: FolderView, now: Timestamp, ps: Seq<Seq<u8>>)
    ensures
        queues_only(f, f.reconsidered_all(now, ps)),
    decreases ps.len(),
{
    if ps.len() > 0 {
        lemma_reconsidered_all(f, now, ps.drop_last());
        law_deriving_anew_writes_nothing(
            f.reconsidered_all(now, ps.drop_last()),
            now,
            ps.last(),
            DeferredReason::ChangedUnderneath,
        );
    }
}

/// Classifying again what is wanted at some paths writes nothing.
pub proof fn lemma_reclassified_all(f: FolderView, now: Timestamp, ps: Seq<Seq<u8>>)
    ensures
        queues_only(f, f.reclassified_all(now, ps)),
    decreases ps.len(),
{
    if ps.len() > 0 {
        lemma_reclassified_all(f, now, ps.drop_last());
        law_deriving_anew_writes_nothing(
            f.reclassified_all(now, ps.drop_last()),
            now,
            ps.last(),
            DeferredReason::ChangedUnderneath,
        );
    }
}

proof fn lemma_resettled(
    f: FolderView,
    now: Timestamp,
    batch: BatchId,
    rs: Seq<RevertedView>,
)
    ensures
        queues_only(f, f.resettled(now, batch, rs)),
    decreases rs.len(),
{
    if rs.len() > 0 {
        lemma_resettled(f, now, batch, rs.drop_last());
        law_deriving_anew_writes_nothing(
            f.resettled(now, batch, rs.drop_last()),
            now,
            rs.last().path,
            DeferredReason::ChangedUnderneath,
        );
    }
}

proof fn lemma_sourced(
    f: FolderView,
    raw: Map<Seq<u8>, EntryView>,
    ks: Seq<Seq<u8>>,
    source: NodeId,
)
    ensures
        queues_only(f, f.sourced(raw, ks, source)),
        f.sourced(raw, ks, source).quarantine == f.quarantine,
        f.sourced(raw, ks, source).deferred == f.deferred,
        f.sourced(raw, ks, source).wants.wants.dom() =~= f.wants.wants.dom(),
        forall|p: Seq<u8>| #[trigger]
            f.wants.wants.contains_key(p) ==> f.sourced(raw, ks, source).wants.wants[p].entry
                == f.wants.wants[p].entry,
    decreases ks.len(),
{
    if ks.len() > 0 {
        lemma_sourced(f, raw, ks.drop_last(), source);
    }
}

// ---- receiving --------------------------------------------------------------

proof fn lemma_receiving_sorted(
    r: Receiving,
    items: Seq<ItemView>,
    raw: Map<Seq<u8>, EntryView>,
    batch: BatchView,
)
    requires
        r.kept.len() == 0,
    ensures
        queues_only(r.folder, r.sort_all(items, raw, batch).folder),
        r.sort_all(items, raw, batch).folder.wants == r.folder.wants,
        forall|j: int|
            0 <= j < r.sort_all(items, raw, batch).kept.len() ==> {
                let p = (#[trigger] r.sort_all(items, raw, batch).kept[j]).entry.path;
                items.contains(r.sort_all(items, raw, batch).kept[j]) && (raw.contains_key(p)
                    && r.folder.paused is Some ==> !r.folder.index.pending.contains_key(p))
            },
    decreases items.len(),
{
    if items.len() > 0 {
        let t = items.drop_last();
        lemma_receiving_sorted(r, t, raw, batch);
        let a = r.sort_all(t, raw, batch);
        let b = r.sort_all(items, raw, batch);
        assert forall|j: int| 0 <= j < b.kept.len() implies {
            let p = (#[trigger] b.kept[j]).entry.path;
            items.contains(b.kept[j]) && (raw.contains_key(p) && r.folder.paused is Some
                ==> !r.folder.index.pending.contains_key(p))
        } by {
            if j < a.kept.len() {
                assert(b.kept[j] == a.kept[j]);
                let i = choose|i: int| 0 <= i < t.len() && t[i] == a.kept[j];
                assert(items[i] == b.kept[j]);
            } else {
                assert(items[items.len() - 1] == b.kept[j]);
            }
        }
    }
}

/// Receiving a batch notes how far the sender's records reach, and writes nothing else: no
/// record, pending change or sequence number changes before something is put in place.
pub proof fn law_receiving_writes_nothing(f: FolderView, now: Timestamp, batch: BatchView)
    ensures
        queues_only(
            FolderView {
                index: f.index.received(batch.source, batch.seq_low, batch.seq_high),
                ..f
            },
            f.received(now, batch).folder,
        ),
        f.received(now, batch).folder.index.records == f.index.records,
        f.received(now, batch).folder.index.pending == f.index.pending,
        f.received(now, batch).folder.index.seq == f.index.seq,
{
    lemma_receiving(f, batch);
    let r = f.receiving(batch);
    lemma_wanting_all(
        r.folder,
        paired(r.kept, last_by_path(batch.entries)),
        batch.id,
        batch.source,
        batch.seq_high,
    );
}

/// What sorting out a received batch changes, and which items of it are kept.
pub proof fn lemma_receiving(f: FolderView, batch: BatchView)
    ensures
        queues_only(
            FolderView {
                index: f.index.received(batch.source, batch.seq_low, batch.seq_high),
                ..f
            },
            f.receiving(batch).folder,
        ),
        f.receiving(batch).folder.wants.wants.dom() =~= f.wants.wants.dom(),
        forall|p: Seq<u8>| #[trigger]
            f.wants.wants.contains_key(p) ==> f.receiving(batch).folder.wants.wants[p].entry
                == f.wants.wants[p].entry,
        forall|j: int|
            0 <= j < f.receiving(batch).kept.len() ==> {
                let p = (#[trigger] f.receiving(batch).kept[j]).entry.path;
                apply_set_of(
                    f.index.received(batch.source, batch.seq_low, batch.seq_high),
                    batch,
                ).items.contains(f.receiving(batch).kept[j]) && (last_by_path(
                    batch.entries,
                ).contains_key(p) && f.paused is Some ==> !f.index.pending.contains_key(p))
            },
{
    let s = FolderView {
        index: f.index.received(batch.source, batch.seq_low, batch.seq_high),
        ..f
    };
    let set = apply_set_of(s.index, batch);
    let raw = last_by_path(batch.entries);
    let c = s.counting(set.fallbacks);
    lemma_sourced(c, raw, in_order(raw.dom()), batch.source);
    let t = c.sourced(raw, in_order(raw.dom()), batch.source);
    let r = Receiving {
        folder: t,
        kept: Seq::empty(),
        joined: 0,
        frozen: 0,
        already_wanted: 0,
    };
    lemma_receiving_sorted(r, set.items, raw, batch);
}

/// A batch that trips the brake is held and answered so, with the reason: nothing of it is wanted
/// that was not wanted before, and what was wanted stays as it was but for its sources. A batch
/// that does not is accepted.
pub proof fn law_held_batch_wants_nothing(f: FolderView, now: Timestamp, batch: BatchView)
    ensures
        ({
            let r = f.received(now, batch);
            match r.received.held {
                Some(reason) => {
                    &&& r.received.decision == (DecisionView::Held { reason: reason.text() })
                    &&& r.folder.wants.wants.dom() == f.wants.wants.dom()
                    &&& forall|p: Seq<u8>| #[trigger]
                        f.wants.wants.contains_key(p) ==> r.folder.wants.wants[p].entry
                            == f.wants.wants[p].entry
                },
                None => r.received.decision == DecisionView::Accepted,
            }
        }),
{
    lemma_receiving(f, batch);
}

proof fn lemma_wanting_elsewhere(
    f: FolderView,
    pairs: Seq<(ItemView, EntryView)>,
    batch: BatchId,
    source: NodeId,
    seq_high: u64,
    p: Seq<u8>,
)
    requires
        forall|i: int| 0 <= i < pairs.len() ==> (#[trigger] pairs[i]).0.entry.path != p,
    ensures
        f.wanting_all(pairs, batch, source, seq_high).wants.get(p) == f.wants.get(p),
    decreases pairs.len(),
{
    if pairs.len() > 0 {
        let t = pairs.drop_last();
        assert forall|i: int| 0 <= i < t.len() implies (#[trigger] t[i]).0.entry.path != p by {
            assert(t[i] == pairs[i]);
        }
        lemma_wanting_elsewhere(f, t, batch, source, seq_high, p);
        assert(pairs[pairs.len() - 1].0.entry.path != p);
    }
}

/// While a folder is paused, nothing that arrives is wanted at a path with a pending change: that
/// waits until the change is approved or undone.
pub proof fn law_pending_paths_are_frozen(
    f: FolderView,
    now: Timestamp,
    batch: BatchView,
    p: Seq<u8>,
)
    requires
        f.index.well_formed(),
        f.paused is Some,
        f.index.pending.contains_key(p),
    ensures
        f.received(now, batch).folder.wants.wants.contains_key(p) <==> f.wants.wants.contains_key(
            p,
        ),
        f.wants.wants.contains_key(p) ==> f.received(now, batch).folder.wants.wants[p].entry
            == f.wants.wants[p].entry,
{
    lemma_receiving(f, batch);
    let r = f.receiving(batch);
    let raw = last_by_path(batch.entries);
    let s = f.index.received(batch.source, batch.seq_low, batch.seq_high);
    law_settling_well_formed(f.index, batch.source, batch.seq_low, batch.seq_high);
    crate::batch::lemma_apply_set_paths(s, batch);
    let pairs = paired(r.kept, raw);
    assert forall|i: int| 0 <= i < pairs.len() implies (#[trigger] pairs[i]).0.entry.path != p by {
        assert(pairs[i].0 == r.kept[i]);
        let items = apply_set_of(s, batch).items;
        let j = choose|j: int| 0 <= j < items.len() && items[j] == r.kept[i];
        assert(raw.contains_key(items[j].entry.path));
    }
    lemma_wanting_elsewhere(r.folder, pairs, batch.id, batch.source, batch.seq_high, p);
    assert(r.folder.wants.wants.contains_key(p) == f.wants.wants.contains_key(p));
}

// ---- ticks, approval and revert ---------------------------------------------

/// However often something is written, an open window closes no later than the longest wait after
/// the first write, and writing never reopens it.
pub proof fn law_window_is_bounded(f: FolderView, now: Timestamp)
    requires
        f.window is Some,
    ensures
        ({
            let w = f.touched(now).window->0;
            &&& f.touched(now).window is Some
            &&& w.opened == (f.window->0).opened
            &&& w.last.0 >= (f.window->0).last.0
            &&& w.end().0 <= (f.window->0).opened.0 + WINDOW_NANOS
        }),
{
}

/// A paused folder sends nothing at a tick, and stays paused for the same batch; a folder that
/// trips the brake pauses instead of sending.
pub proof fn law_paused_sends_nothing(f: FolderView, now: Timestamp, base: BatchId)
    ensures
        f.paused is Some ==> f.tick_result(now, base) !is Sent && f.ticked(now, base).index
            == f.index && f.ticked(now, base).paused is Some && (f.ticked(
            now,
            base,
        ).paused->0).batch == (f.paused->0).batch,
        f.paused is None && f.is_due(now) && f.precheck().1 is Hold ==> f.tick_result(now, base)
            !is Sent && f.ticked(now, base).index == f.index && f.ticked(now, base).paused is Some
            && (f.ticked(now, base).paused->0).batch == base,
        f.tick_result(now, base) is Sent ==> f.paused is None && f.precheck().1 is Pass
            && f.is_due(now) && f.ticked(now, base).index == f.index.announced(),
{
}

/// What a tick sends chains from what was announced before to what is announced now, and holds
/// every unannounced record once, in order.
pub proof fn law_tick_announces_everything(f: FolderView, now: Timestamp, base: BatchId)
    requires
        f.tick_result(now, base) is Sent,
    ensures
        ({
            let b = f.tick_result(now, base)->Sent_0;
            let records = f.index.unannounced();
            &&& b.len() > 0
            &&& b[0].seq_low == f.index.announced_seq
            &&& forall|i: int| 0 < i < b.len() ==> (#[trigger] b[i]).seq_low == b[i - 1].seq_high
            &&& b.last().seq_high == records.last().0.seq
            &&& forall|k: int|
                0 <= k < records.len() ==> exists|i: int, j: int|
                    0 <= i < b.len() && 0 <= j < b[i].entries.len() && #[trigger] b[i].entries[j]
                        == (#[trigger] records[k]).0.entry
        }),
{
    let records = f.index.unannounced();
    law_formation_chains(base, f.id, f.index.own, now, records, f.index.announced_seq);
    let b = f.tick_result(now, base)->Sent_0;
    assert forall|k: int| 0 <= k < records.len() implies exists|i: int, j: int|
        0 <= i < b.len() && 0 <= j < b[i].entries.len() && #[trigger] b[i].entries[j] == (
        #[trigger] records[k]).0.entry by {
        let i = k / (crate::batch::MAX_BATCH_ENTRIES as int);
        let j = k % (crate::batch::MAX_BATCH_ENTRIES as int);
        assert(b[i].entries[j] == records[k].0.entry);
    }
}

/// Catch-up never shows a pending change: every entry that it sends is what peers last saw at its
/// path.
pub proof fn law_catchup_shows_nothing_pending(
    f: FolderView,
    now: Timestamp,
    base: BatchId,
    peer: NodeId,
)
    requires
        f.index.well_formed(),
    ensures
        ({
            let b = f.catchup_for(now, base, peer);
            forall|i: int, j: int|
                0 <= i < b.len() && 0 <= j < b[i].entries.len() ==> {
                    let e = #[trigger] b[i].entries[j];
                    f.index.last_seen(e.path) is Some && (f.index.last_seen(e.path)->0).entry == e
                }
        }),
{
    let l = f.index.announced_since(f.acked_by(peer));
    let records = Seq::new(l.len(), |i: int| (l[i], None::<ChangeKind>));
    law_catchup_never_leaks(f.index, f.acked_by(peer));
    let b = f.catchup_for(now, base, peer);
    assert forall|i: int, j: int| 0 <= i < b.len() && 0 <= j < b[i].entries.len() implies {
        let e = #[trigger] b[i].entries[j];
        f.index.last_seen(e.path) is Some && (f.index.last_seen(e.path)->0).entry == e
    } by {
        let k = i * (crate::batch::MAX_BATCH_ENTRIES as int) + j;
        assert(b[i].entries[j] == records[k].0.entry);
        assert(Some(l[k]) == f.index.last_seen(l[k].entry.path));
    }
}

/// An approval of what is neither held nor paused, a revert of a folder that is not paused, and a
/// tick before the window is due change nothing.
pub proof fn law_nothing_to_decide(f: FolderView, now: Timestamp, batch: BatchId)
    ensures
        !f.quarantine.items.contains_key(batch) && (f.paused is None || (f.paused->0).batch
            != batch) ==> f.approve(now, batch).folder == f && f.approve(now, batch).approved
            == ApprovedView::Unknown,
        f.paused is None ==> f.reverted(now) == f && f.revert_result() is None,
        !f.is_due(now) ==> f.ticked(now, batch) == f && f.tick_result(now, batch)
            == TickedView::Nothing,
{
}

/// Approving the paused batch announces everything that is there and unpauses the folder; records
/// stay as they are.
pub proof fn law_approval_sends(f: FolderView, now: Timestamp, batch: BatchId)
    requires
        f.paused is Some,
        (f.paused->0).batch == batch,
        !f.quarantine.items.contains_key(batch),
    ensures
        f.approve(now, batch).folder.paused is None,
        f.approve(now, batch).folder.id == f.id,
        f.approve(now, batch).folder.members == f.members,
        f.approve(now, batch).folder.index == f.index.announced(),
        f.approve(now, batch).folder.index.records == f.index.records,
        f.approve(now, batch).approved == ApprovedView::Sent(f.fresh_batches(now, batch)),
{
    law_deriving_anew_writes_nothing(
        FolderView { paused: None, ..f.announced() },
        now,
        Seq::empty(),
        DeferredReason::Frozen,
    );
}

/// Releasing a held item takes it out of the quarantine before its entries are let in, and neither
/// pauses nor unpauses, nor writes anything.
pub proof fn law_release_writes_nothing(f: FolderView, now: Timestamp, batch: BatchId)
    requires
        f.quarantine.items.contains_key(batch),
    ensures
        queues_only(f, f.approve(now, batch).folder),
        f.approve(now, batch).approved is Released,
{
    let item = f.quarantine.items[batch];
    let ks = in_order(item.entries.dom());
    let pairs = by_path(released_among(f.index, item.entries, ks));
    let s = FolderView { quarantine: f.quarantine.released(batch), ..f }.counting(
        crate::batch::fallbacks_among(f.index, item.entries, ks),
    );
    law_letting_in_writes_nothing(
        s,
        now,
        as_candidates(pairs, item.batch, item.source, item.seq_high),
        false,
    );
}

/// A revert unpauses the folder and puts back, at every path, what peers last saw; nothing is
/// pending then, and nothing more was announced.
pub proof fn law_revert_puts_back(f: FolderView, now: Timestamp, p: Seq<u8>)
    requires
        f.paused is Some,
    ensures
        f.reverted(now).paused is None,
        f.reverted(now).id == f.id,
        f.reverted(now).members == f.members,
        f.reverted(now).window is None,
        f.reverted(now).index == f.index.reverted(),
        f.reverted(now).index.get(p) == f.index.last_seen(p),
        f.reverted(now).index.pending == Map::<Seq<u8>, Option<RecordView>>::empty(),
        f.reverted(now).index.announced_seq == f.index.announced_seq,
{
    let rs = f.index.reverted_list();
    let g = FolderView {
        paused: None,
        index: f.index.reverted(),
        quarantine: f.quarantine.all_returned(),
        ..f
    };
    lemma_resettled(g, now, (f.paused->0).batch, rs);
    law_deriving_anew_writes_nothing(
        FolderView { window: None, ..g.resettled(now, (f.paused->0).batch, rs) },
        now,
        Seq::empty(),
        DeferredReason::Frozen,
    );
}

// ---- denial -----------------------------------------------------------------

/// Whether a path can be bumped: its counter has room.
pub open spec fn bumpable(f: FolderView, p: Seq<u8>) -> bool {
    counter_of(
        join_all(f.index.version_at(p), versions_in(f.quarantine.list(p))),
        f.index.own,
    ) < u64::MAX
}

proof fn lemma_bumped_all(w: WithChanges, now: Timestamp, ps: Seq<Seq<u8>>, p: Seq<u8>)
    requires
        ps.no_duplicates(),
    ensures
        ({
            let f = w.folder;
            let b = w.bumped_all(now, ps);
            let list = f.quarantine.list(p);
            &&& b.folder == (FolderView { index: b.folder.index, ..f })
            &&& b.changes.len() == w.changes.len() + ps.len()
            &&& b.folder.index.own == f.index.own
            &&& b.folder.index.host == f.index.host
            &&& b.folder.index.announced_seq == f.index.announced_seq
            &&& f.index.well_formed() ==> b.folder.index.well_formed()
            &&& !ps.contains(p) ==> b.folder.index.get(p) == f.index.get(p)
                && b.folder.index.last_seen(p) == f.index.last_seen(p)
                && b.folder.index.pending.contains_key(p) == f.index.pending.contains_key(p)
            &&& ps.contains(p) ==> b.folder.index.get(p) is Some && exists|s: IndexView|
                s.own == f.index.own && s.get(p) == f.index.get(p) && (b.folder.index.get(
                    p,
                )->0).entry == #[trigger] s.bumped_entry(
                    p,
                    versions_in(list),
                    max_stamp(list),
                    now.0,
                ) && b.folder.index.pending.contains_key(p)
        }),
    decreases ps.len(),
{
    if ps.len() > 0 {
        let t = ps.drop_last();
        let q = ps.last();
        assert forall|i: int, j: int| 0 <= i < t.len() && 0 <= j < t.len() && i != j implies t[i]
            != t[j] by {
            assert(ps[i] != ps[j]);
        }
        lemma_bumped_all(w, now, t, p);
        let a = w.bumped_all(now, t);
        let s = a.folder;
        let list = s.quarantine.list(q);
        lemma_bump_well_formed(s.index, q, list, now);
        let e = s.index.bumped_entry(q, versions_in(list), max_stamp(list), now.0);
        assert(e.path == q);
        if q == p {
            assert(ps[ps.len() - 1] == p);
            assert(!t.contains(p)) by {
                if t.contains(p) {
                    let i = choose|i: int| 0 <= i < t.len() && t[i] == p;
                    assert(ps[i] == ps[ps.len() - 1]);
                }
            }
            assert(s.index.bumped_entry(p, versions_in(list), max_stamp(list), now.0) == e);
        } else {
            assert(ps.contains(p) == t.contains(p)) by {
                if ps.contains(p) {
                    let i = choose|i: int| 0 <= i < ps.len() && ps[i] == p;
                    assert(t[i] == p);
                }
                if t.contains(p) {
                    let i = choose|i: int| 0 <= i < t.len() && t[i] == p;
                    assert(ps[i] == p);
                }
            }
        }
    }
}

/// A bump keeps the index well formed.
pub proof fn lemma_bump_well_formed(
    s: IndexView,
    p: Seq<u8>,
    list: crate::quarantine::Arrivals,
    now: Timestamp,
)
    ensures
        s.well_formed() ==> s.written(
            s.bumped_entry(p, versions_in(list), max_stamp(list), now.0),
        ).well_formed(),
{
    if s.well_formed() {
        law_written_well_formed(
            s,
            s.bumped_entry(p, versions_in(list), max_stamp(list), now.0),
        );
    }
}

/// Denying a held item leaves, at each of its paths, a record that dominates every version that
/// was quarantined there and the record before, with the content that was there before, and ranks
/// above them; it is pending, so it is announced next and the denied versions lose everywhere.
pub proof fn law_denial_dominates(f: FolderView, now: Timestamp, batch: BatchId, p: Seq<u8>, i: int)
    requires
        f.quarantine.items.contains_key(batch),
        f.quarantine.items[batch].entries.dom().finite(),
        f.quarantine.items[batch].entries.contains_key(p),
        bumpable(f, p),
        0 <= i < f.quarantine.list(p).len(),
    ensures
        ({
            let g = f.denial(now, batch).folder;
            let e = g.index.records[p].entry;
            &&& g.index.records.contains_key(p)
            &&& g.index.pending.contains_key(p)
            &&& relation(e.version, f.quarantine.list(p)[i].1.version) == Relation::Dominates
            &&& relation(e.version, f.index.version_at(p)) == Relation::Dominates
            &&& f.index.records.contains_key(p) ==> e.kind == f.index.records[p].entry.kind
                && e.hash == f.index.records[p].entry.hash && e.deleted
                == f.index.records[p].entry.deleted && e.executable
                == f.index.records[p].entry.executable && e.mtime_ns
                == f.index.records[p].entry.mtime_ns
            &&& !f.index.records.contains_key(p) ==> e.deleted
            &&& f.quarantine.list(p)[i].1.stamp < i64::MAX ==> e.stamp > f.quarantine.list(
                p,
            )[i].1.stamp
            &&& e.modified_by == f.index.own
        }),
{
    let item = f.quarantine.items[batch];
    let ps = in_order(item.entries.dom());
    lemma_order_facts(item.entries.dom());
    let w0 = WithChanges { folder: f, changes: Seq::empty() };
    lemma_bumped_all(w0, now, ps, p);
    let w = w0.bumped_all(now, ps);
    let s = FolderView { quarantine: w.folder.quarantine.denial(batch), ..w.folder };
    let t = if ps.len() > 0 {
        s.touched(now)
    } else {
        s
    };
    lemma_reclassified_all(t, now, ps);
    assert(item.entries.dom().contains(p));
    let list = f.quarantine.list(p);
    let x = choose|x: IndexView|
        x.own == f.index.own && x.get(p) == f.index.get(p) && (w.folder.index.get(p)->0).entry
            == #[trigger] x.bumped_entry(p, versions_in(list), max_stamp(list), now.0);
    law_bump_dominates(x, p, versions_in(list), max_stamp(list), now.0);
    assert(versions_in(list)[i] == list[i].1.version);
    crate::laws::keeping::law_largest_stamp(list);
    assert(list[i].1.stamp <= max_stamp(list)->0);
}

/// A denial writes at the paths of the denied item only, and announces nothing yet.
pub proof fn law_denial_is_local(f: FolderView, now: Timestamp, batch: BatchId, p: Seq<u8>)
    requires
        f.quarantine.items.contains_key(batch),
        f.quarantine.items[batch].entries.dom().finite(),
    ensures
        ({
            let g = f.denial(now, batch).folder;
            &&& !f.quarantine.items[batch].entries.contains_key(p) ==> g.index.get(p)
                == f.index.get(p)
            &&& g.index.announced_seq == f.index.announced_seq
            &&& g.paused == f.paused
            &&& f.denial(now, batch).changes.len() == f.quarantine.items[batch].entries.dom().len()
            &&& f.index.well_formed() ==> g.index.well_formed()
        }),
{
    let item = f.quarantine.items[batch];
    let ps = in_order(item.entries.dom());
    lemma_order_facts(item.entries.dom());
    let w0 = WithChanges { folder: f, changes: Seq::empty() };
    lemma_bumped_all(w0, now, ps, p);
    let w = w0.bumped_all(now, ps);
    let s = FolderView { quarantine: w.folder.quarantine.denial(batch), ..w.folder };
    let t = if ps.len() > 0 {
        s.touched(now)
    } else {
        s
    };
    lemma_reclassified_all(t, now, ps);
    assert(item.entries.contains_key(p) == item.entries.dom().contains(p));
}

// ---- what every other operation keeps ---------------------------------------

/// Whether a folder is still the same folder, still paused for the same batch if it was, has
/// announced nothing more, and has a well-formed index if it had one.
pub open spec fn undecided(a: FolderView, b: FolderView) -> bool {
    &&& b.id == a.id
    &&& b.members == a.members
    &&& b.index.own == a.index.own
    &&& b.index.host == a.index.host
    &&& a.paused is Some ==> b.paused is Some && (b.paused->0).batch == (a.paused->0).batch && (
    b.paused->0).since == (a.paused->0).since && (b.paused->0).reason == (a.paused->0).reason
    &&& a.paused is None ==> b.paused is None
    &&& b.index.announced_seq == a.index.announced_seq
    &&& b.index.announced_tracked == a.index.announced_tracked
    &&& a.index.well_formed() ==> b.index.well_formed()
}

/// A scan report keeps the index well formed.
pub proof fn lemma_scan_index(f: FolderView, now: Timestamp, path: Seq<u8>, state: ScanState)
    requires
        f.index.well_formed(),
    ensures
        f.scan_index(now, path, state).well_formed(),
{
    match state {
        ScanState::Observed(o) => {
            law_observe_well_formed(f.index, path, o, now.0);
        },
        ScanState::Absent => {
            lemma_absent_well_formed(f.index, path, now);
        },
        ScanState::Unchanged => {},
    }
}

/// A scan report neither decides a pause nor announces anything.
pub proof fn law_scan_decides_nothing(
    f: FolderView,
    now: Timestamp,
    path: Seq<u8>,
    state: ScanState,
)
    ensures
        undecided(f, f.scanned(now, path, state)),
{
    let s = f.seen(path);
    if !(f.ignores(path, state) || (state is Unchanged && f.index.live(path) is None)) {
        let t = FolderView { index: f.scan_index(now, path, state), ..s };
        if f.index.well_formed() {
            lemma_scan_index(f, now, path, state);
        }
        law_deriving_anew_writes_nothing(
            t.touched(now),
            now,
            path,
            DeferredReason::ChangedUnderneath,
        );
        let u = if f.scan_change(now, path, state) is Some {
            t.touched(now).reclassified(now, path)
        } else {
            t
        };
        law_deriving_anew_writes_nothing(u, now, path, DeferredReason::ChangedUnderneath);
    }
}

/// Finding a path gone keeps the index well formed.
pub proof fn lemma_absent_well_formed(s: IndexView, path: Seq<u8>, now: Timestamp)
    requires
        s.well_formed(),
    ensures
        s.observe_absent(path, now.0).well_formed(),
        s.observe_lost(path, now.0).well_formed(),
{
    law_observe_well_formed(
        s,
        path,
        crate::entry::Observed {
            kind: crate::entry::Kind::Dir,
            executable: false,
            size: 0,
            mtime_ns: 0,
            hash: crate::entry::ContentHash::empty(),
        },
        now.0,
    );
}

proof fn lemma_vanished_all(w: WithChanges, now: Timestamp, ps: Seq<Seq<u8>>)
    ensures
        undecided(w.folder, w.vanished_all(now, ps).folder),
    decreases ps.len(),
{
    if ps.len() > 0 {
        let p = ps.last();
        lemma_vanished_all(w, now, ps.drop_last());
        let s = w.vanished_all(now, ps.drop_last()).folder;
        let t = FolderView { index: s.index.observe_absent(p, now.0), ..s };
        if s.index.well_formed() {
            lemma_absent_well_formed(s.index, p, now);
        }
        law_deriving_anew_writes_nothing(t, now, p, DeferredReason::ChangedUnderneath);
        law_deriving_anew_writes_nothing(
            t.reclassified(now, p),
            now,
            p,
            DeferredReason::ChangedUnderneath,
        );
        law_deriving_anew_writes_nothing(s, now, p, DeferredReason::ChangedUnderneath);
    }
}

/// The end of a scan neither decides a pause nor announces anything.
pub proof fn law_scan_end_decides_nothing(f: FolderView, now: Timestamp)
    ensures
        undecided(f, f.scan_finished(now)),
        f.scan_finished(now).scan is None,
{
    if f.scan is Some {
        let seen = f.scan->0;
        let s = FolderView { scan: None, ..f };
        let w0 = WithChanges { folder: s, changes: Seq::empty() };
        let gone = s.gone_among(
            crate::index::live_among(s.index.records, s.index.paths()),
            seen,
        );
        lemma_vanished_all(w0, now, gone);
        lemma_vanished_scan(w0, now, gone);
        let t = f.scan_swept(now, seen).folder;
        lemma_reconsidered_all(t, now, t.unseen_among(in_order(t.deferred.dom()), seen));
    }
}

proof fn lemma_vanished_scan(w: WithChanges, now: Timestamp, ps: Seq<Seq<u8>>)
    ensures
        w.vanished_all(now, ps).folder.scan == w.folder.scan,
    decreases ps.len(),
{
    if ps.len() > 0 {
        let p = ps.last();
        lemma_vanished_scan(w, now, ps.drop_last());
        let s = w.vanished_all(now, ps.drop_last()).folder;
        let t = FolderView { index: s.index.observe_absent(p, now.0), ..s };
        law_deriving_anew_writes_nothing(t, now, p, DeferredReason::ChangedUnderneath);
        law_deriving_anew_writes_nothing(
            t.reclassified(now, p),
            now,
            p,
            DeferredReason::ChangedUnderneath,
        );
        law_deriving_anew_writes_nothing(s, now, p, DeferredReason::ChangedUnderneath);
    }
}

/// Receiving a batch neither decides a pause nor announces anything.
pub proof fn law_receiving_decides_nothing(f: FolderView, now: Timestamp, batch: BatchView)
    ensures
        undecided(f, f.received(now, batch).folder),
{
    law_receiving_writes_nothing(f, now, batch);
    if f.index.well_formed() {
        law_settling_well_formed(f.index, batch.source, batch.seq_low, batch.seq_high);
    }
}

/// A denial neither decides a pause nor announces anything.
pub proof fn law_denial_decides_nothing(f: FolderView, now: Timestamp, batch: BatchId)
    ensures
        undecided(f, f.denial(now, batch).folder),
{
    let ps = in_order(f.quarantine.items[batch].entries.dom());
    let w0 = WithChanges { folder: f, changes: Seq::empty() };
    lemma_bumped_frame(w0, now, ps);
    let w = w0.bumped_all(now, ps);
    let s = FolderView { quarantine: w.folder.quarantine.denial(batch), ..w.folder };
    let t = if ps.len() > 0 {
        s.touched(now)
    } else {
        s
    };
    lemma_reclassified_all(t, now, ps);
}

/// A report on a fetch neither decides a pause nor announces anything.
pub proof fn law_fetch_report_decides_nothing(
    f: FolderView,
    now: Timestamp,
    path: Seq<u8>,
    version: Vector,
    report: FetchReport,
)
    ensures
        undecided(f, f.fetched(now, path, version, report)),
{
    if f.index.well_formed() {
        lemma_absent_well_formed(f.index, path, now);
    }
}

/// New rules and acknowledgements neither decide a pause nor announce anything; new rules only
/// say what they would decide.
pub proof fn law_rules_decide_nothing(f: FolderView, rules: Rules, peer: NodeId, watermark: u64)
    ensures
        undecided(f, f.ruled(rules)),
        f.ruled(rules).quarantine == f.quarantine,
        f.ruled(rules).wants == f.wants,
        f.ruled(rules).index == f.index,
        undecided(f, f.acknowledged(peer, watermark)),
{
}

proof fn lemma_bumped_frame(w: WithChanges, now: Timestamp, ps: Seq<Seq<u8>>)
    ensures
        undecided(w.folder, w.bumped_all(now, ps).folder),
    decreases ps.len(),
{
    if ps.len() > 0 {
        lemma_bumped_frame(w, now, ps.drop_last());
        let s = w.bumped_all(now, ps.drop_last()).folder;
        lemma_bump_well_formed(s.index, ps.last(), s.quarantine.list(ps.last()), now);
    }
}

proof fn lemma_adopting(f: FolderView, now: Timestamp, e: EntryView)
    ensures
        undecided(f, f.adopting(now, e)),
{
    if f.index.well_formed() {
        law_adopted_well_formed(f.index, e);
    }
}

/// What the host put in place, or could not, neither decides a pause nor announces anything.
pub proof fn law_applying_decides_nothing(
    f: FolderView,
    now: Timestamp,
    path: Seq<u8>,
    version: Vector,
    outcome: ApplyOutcome,
)
    ensures
        undecided(f, f.applied(now, path, version, outcome).folder),
{
    if f.wants.wants_version(path, version) {
        let w = f.wants.wants[path];
        let s = FolderView { wants: f.wants.removed(path), ..f };
        lemma_adopting(s, now, w.entry);
        let t = s.adopting(now, w.entry);
        law_deriving_anew_writes_nothing(t, now, path, DeferredReason::ChangedUnderneath);
        if w.conflict is Some {
            let copy = w.conflict->0;
            let e = t.index.copy_entry(copy.path, copy.loser);
            if t.index.well_formed() {
                law_written_well_formed(t.index, e);
            }
            let u = FolderView { index: t.index.written(e), ..t }.touched(now);
            law_deriving_anew_writes_nothing(
                u,
                now,
                copy.path,
                DeferredReason::ChangedUnderneath,
            );
            law_deriving_anew_writes_nothing(
                u.reclassified(now, copy.path),
                now,
                path,
                DeferredReason::ChangedUnderneath,
            );
        }
    }
}

proof fn lemma_take_all(w: WithSteps, now: Timestamp, steps: Seq<WantStepView>)
    ensures
        undecided(w.folder, w.take_all(now, steps).folder),
    decreases steps.len(),
{
    if steps.len() > 0 {
        lemma_take_all(w, now, steps.drop_last());
        let s = w.take_all(now, steps.drop_last()).folder;
        match steps.last() {
            WantStepView::Adopt(x) => {
                lemma_adopting(s, now, x.entry);
                law_deriving_anew_writes_nothing(
                    s.adopting(now, x.entry),
                    now,
                    x.entry.path,
                    DeferredReason::ChangedUnderneath,
                );
                law_deriving_anew_writes_nothing(
                    s.postponing(x),
                    now,
                    x.entry.path,
                    DeferredReason::ChangedUnderneath,
                );
            },
            _ => {},
        }
    }
}

/// Driving the want-list neither decides a pause nor announces anything.
pub proof fn law_dispatch_decides_nothing(
    f: FolderView,
    now: Timestamp,
    peers: Map<NodeId, Tier>,
)
    ensures
        undecided(f, f.dispatched(now, peers).folder),
{
    let d = f.wants.dispatched(now, f.rules, peers);
    lemma_take_all(
        WithSteps {
            folder: FolderView { wants: d.list, ..f },
            host: Seq::empty(),
            adopted: Seq::empty(),
        },
        now,
        d.steps,
    );
}

/// Approvals, reverts and ticks keep the index well formed.
pub proof fn law_decisions_keep_the_index_well_formed(
    f: FolderView,
    now: Timestamp,
    batch: BatchId,
)
    requires
        f.index.well_formed(),
    ensures
        f.approve(now, batch).folder.index.well_formed(),
        f.reverted(now).index.well_formed(),
        f.ticked(now, batch).index.well_formed(),
{
    law_settling_well_formed(f.index, f.index.own, 0, 0);
    if f.quarantine.items.contains_key(batch) {
        law_release_writes_nothing(f, now, batch);
    } else if f.paused is Some && (f.paused->0).batch == batch {
        law_approval_sends(f, now, batch);
    }
    if f.paused is Some {
        law_revert_puts_back(f, now, Seq::empty());
    }
}

/// A report on a fetch that matches no want, such as a late one for a version since replaced, does
/// nothing and gives no state.
pub proof fn law_unmatched_report_does_nothing(
    f: FolderView,
    now: Timestamp,
    path: Seq<u8>,
    version: Vector,
    report: FetchReport,
)
    requires
        !f.wants.wants_version(path, version),
    ensures
        f.fetched(now, path, version, report) == f,
        f.fetch_result(now, path, version, report) == (FetchedView {
            state: None,
            unrecoverable: None,
        }),
{
}

// ---- nothing is lost --------------------------------------------------------

/// What a commit overwrites or removes is moved aside: to its conflict copy if the want carries
/// one, else to the trash; and what the host is told to expect there is what the index believes.
pub proof fn law_displaced_is_kept(w: WantView, expected: Option<Expected>)
    ensures
        ({
            let place = match w.conflict {
                Some(copy) => DisplaceView::ConflictCopy(copy.path),
                None => DisplaceView::Trash,
            };
            match commit_step(w, expected) {
                HostStepView::Write { path, entry, expected: x, displace } => path == w.entry.path
                    && entry == w.entry && !entry.deleted && x == expected && displace == place,
                HostStepView::Remove { path, expected: x, displace } => path == w.entry.path
                    && w.entry.deleted && x == expected && displace == place,
                HostStepView::SetMeta { path, mtime_ns, executable } => path == w.entry.path
                    && w.mode == ApplyMode::MetadataOnly,
                HostStepView::Fetch { path, version, hash, size, from } => false,
            }
        }),
{
}

/// Once a conflict's winner is in place, the record at its path is the merged entry, and the loser
/// has a record of its own under its conflict name, which is announced next.
pub proof fn law_conflict_copy_is_recorded(
    f: FolderView,
    now: Timestamp,
    path: Seq<u8>,
    version: Vector,
)
    requires
        f.wants.wants_version(path, version),
        f.wants.wants[path].entry.path == path,
        f.index.adoptable(f.wants.wants[path].entry),
        f.wants.wants[path].conflict is Some,
        (f.wants.wants[path].conflict->0).path != path,
        !(f.wants.wants[path].conflict->0).loser.deleted,
    ensures
        ({
            let w = f.wants.wants[path];
            let copy = w.conflict->0;
            let r = f.applied(now, path, version, ApplyOutcome::Done);
            let g = r.folder.index;
            &&& g.records.contains_key(path) && g.records[path].entry == w.entry
            &&& g.records.contains_key(copy.path) && !g.records[copy.path].entry.deleted
            &&& g.records[copy.path].entry.same_content(copy.loser)
            &&& g.records[copy.path].entry.mtime_ns == copy.loser.mtime_ns
            &&& g.records[copy.path].entry.size == copy.loser.size
            &&& g.pending.contains_key(copy.path)
            &&& r.records.len() == 2
        }),
{
    let w = f.wants.wants[path];
    let s = FolderView { wants: f.wants.removed(path), ..f };
    let t = s.adopting(now, w.entry);
    let copy = w.conflict->0;
    let e = t.index.copy_entry(copy.path, copy.loser);
    let u = FolderView { index: t.index.written(e), ..t }.touched(now);
    law_deriving_anew_writes_nothing(u, now, copy.path, DeferredReason::ChangedUnderneath);
    law_deriving_anew_writes_nothing(
        u.reclassified(now, copy.path),
        now,
        path,
        DeferredReason::ChangedUnderneath,
    );
}

/// A want whose file changed underneath is not lost: its entry waits for the next observation.
pub proof fn law_changed_underneath_waits(
    f: FolderView,
    now: Timestamp,
    path: Seq<u8>,
    version: Vector,
)
    requires
        f.wants.wants_version(path, version),
        f.wants.wants[path].entry.path == path,
    ensures
        ({
            let r = f.applied(now, path, version, ApplyOutcome::ChangedUnderneath);
            let l = r.folder.waiting(path);
            &&& r.folder.index == f.index
            &&& !r.folder.wants.wants.contains_key(path)
            &&& l.len() == f.waiting(path).len() + 1
            &&& l.last().entry == f.wants.wants[path].entry
            &&& l.last().reason == DeferredReason::ChangedUnderneath
        }),
{
}

proof fn lemma_let_in_keeps(
    f: FolderView,
    now: Timestamp,
    cs: Seq<CandidateView>,
    brake: bool,
    p: Seq<u8>,
)
    requires
        f.wants.wants.contains_key(p),
    ensures
        f.let_in(now, cs, brake).wants.wants.contains_key(p),
{
    reveal(FolderView::let_in);
    let s0 = Sorting {
        wants: f.wants,
        quarantine: f.quarantine,
        groups: Map::empty(),
        joined: Map::empty(),
    };
    lemma_sort_keeps(s0, cs, brake, p);
    let t = f.sorted_out(cs, brake);
    let g = FolderView {
        wants: t.wants,
        quarantine: t.quarantine,
        statuses: f.statuses + crate::folder_view::joined_statuses(
            t.joined,
            in_order(t.joined.dom()),
        ),
        ..f
    };
    lemma_groups_keep(g, now, t.groups, in_order(t.groups.dom()), brake, p);
}

proof fn lemma_sort_keeps(s: Sorting, cs: Seq<CandidateView>, brake: bool, p: Seq<u8>)
    requires
        s.wants.wants.contains_key(p),
    ensures
        s.sort_all(cs, brake).wants.wants.contains_key(p),
    decreases cs.len(),
{
    if cs.len() > 0 {
        lemma_sort_keeps(s, cs.drop_last(), brake, p);
    }
}

proof fn lemma_wanting_keeps(
    f: FolderView,
    pairs: Seq<(ItemView, EntryView)>,
    batch: BatchId,
    source: NodeId,
    seq_high: u64,
    p: Seq<u8>,
)
    requires
        f.wants.wants.contains_key(p),
    ensures
        f.wanting_all(pairs, batch, source, seq_high).wants.wants.contains_key(p),
    decreases pairs.len(),
{
    if pairs.len() > 0 {
        lemma_wanting_keeps(f, pairs.drop_last(), batch, source, seq_high, p);
    }
}

proof fn lemma_groups_keep(
    f: FolderView,
    now: Timestamp,
    groups: Groups,
    ks: Seq<((BatchId, NodeId), u64)>,
    brake: bool,
    p: Seq<u8>,
)
    requires
        f.wants.wants.contains_key(p),
    ensures
        f.admit_groups(now, groups, ks, brake).wants.wants.contains_key(p),
    decreases ks.len(),
{
    if ks.len() > 0 {
        lemma_groups_keep(f, now, groups, ks.drop_last(), brake, p);
        let g = f.admit_groups(now, groups, ks.drop_last(), brake);
        let k = ks.last();
        reveal(FolderView::admit_group);
        lemma_wanting_keeps(g, by_path(groups[k]), k.0.0, k.0.1, k.1, p);
    }
}

proof fn lemma_redone_keeps(f: FolderView, now: Timestamp, path: Seq<u8>, p: Seq<u8>)
    requires
        f.wants.wants.contains_key(p),
        p != path,
    ensures
        f.redone(now, path).wants.wants.contains_key(p),
{
    if f.wants.get(path) is Some {
        let old = f.wants.get(path)->0;
        reveal(FolderView::rederived);
        let c = classified(f.index, old.received);
        let s = FolderView { wants: f.wants.removed(path), ..f }.counting(
            if c.fallback {
                1
            } else {
                0
            },
        );
        if c.item is Some {
            let cs = seq![
                CandidateView {
                    item: c.item->0,
                    raw: old.received,
                    batch: old.batch,
                    source: old.source,
                    seq_high: old.seq_high,
                },
            ];
            lemma_let_in_keeps(s, now, cs, true, p);
            lemma_naming_keeps(
                s.let_in(now, cs, true),
                path,
                old.entry.version,
                in_order(old.sources),
                p,
            );
        }
    }
}

proof fn lemma_naming_keeps(
    f: FolderView,
    path: Seq<u8>,
    version: Vector,
    by: Seq<NodeId>,
    p: Seq<u8>,
)
    requires
        f.wants.wants.contains_key(p),
    ensures
        f.naming(path, version, by).wants.wants.contains_key(p),
    decreases by.len(),
{
    if by.len() > 0 {
        lemma_naming_keeps(f, path, version, by.drop_last(), p);
    }
}

proof fn lemma_resettled_wants(
    f: FolderView,
    now: Timestamp,
    batch: BatchId,
    rs: Seq<RevertedView>,
    i: int,
)
    requires
        0 <= i < rs.len(),
        FolderView::revives(rs[i]),
        forall|j: int|
            0 <= j < rs.len() && (#[trigger] rs[j]).restored is Some ==> (
            rs[j].restored->0).entry.path == rs[j].path,
        forall|a: int, b: int|
            0 <= a < b < rs.len() ==> (#[trigger] rs[a]).path != (#[trigger] rs[b]).path,
    ensures
        f.resettled(now, batch, rs).wants.wants.contains_key(rs[i].path),
    decreases rs.len(),
{
    let t = rs.drop_last();
    let s = f.resettled(now, batch, t);
    let r = rs.last();
    assert(rs[rs.len() - 1] == r);
    if i < t.len() {
        assert(t[i] == rs[i]);
        assert forall|j: int| 0 <= j < t.len() && (#[trigger] t[j]).restored is Some implies (
        t[j].restored->0).entry.path == t[j].path by {
            assert(t[j] == rs[j]);
        }
        assert forall|a: int, b: int| 0 <= a < b < t.len() implies (#[trigger] t[a]).path != (
        #[trigger] t[b]).path by {
            assert(rs[a].path != rs[b].path);
        }
        lemma_resettled_wants(f, now, batch, t, i);
        assert(rs[i].path != rs[rs.len() - 1].path);
        if !FolderView::revives(r) {
            lemma_redone_keeps(s, now, r.path, rs[i].path);
        }
    }
}

/// After a revert, every live entry that was put back at a path with a pending change is wanted
/// again, so its content is fetched before anything else happens there.
pub proof fn law_revert_wants_what_it_restores(f: FolderView, now: Timestamp, p: Seq<u8>)
    requires
        f.index.well_formed(),
        f.paused is Some,
        f.index.pending.contains_key(p),
        f.index.seen_live(p),
    ensures
        f.reverted(now).wants.wants.contains_key(p),
{
    let ks = in_order(f.index.pending.dom());
    assert(f.index.pending.dom().subset_of(f.index.records.dom())) by {
        assert forall|k: Seq<u8>| f.index.pending.dom().contains(k) implies
            f.index.records.dom().contains(k) by {
            assert(f.index.pending.contains_key(k));
            assert(f.index.records.contains_key(k));
        }
    }
    vstd::set_lib::lemma_set_subset_finite(f.index.records.dom(), f.index.pending.dom());
    lemma_order_facts(f.index.pending.dom());
    let rs = f.index.reverted_list();
    assert forall|j: int| 0 <= j < rs.len() && (#[trigger] rs[j]).restored is Some implies (
    rs[j].restored->0).entry.path == rs[j].path by {
        assert(f.index.pending.dom().contains(ks[j]));
        assert(f.index.pending.contains_key(ks[j]));
    }
    assert forall|a: int, b: int| 0 <= a < b < rs.len() implies (#[trigger] rs[a]).path != (
    #[trigger] rs[b]).path by {
        assert(ks[a] != ks[b]);
    }
    assert(f.index.pending.dom().contains(p));
    let i = choose|i: int| 0 <= i < ks.len() && ks[i] == p;
    assert(rs[i].path == p);
    let g = FolderView {
        paused: None,
        index: f.index.reverted(),
        quarantine: f.quarantine.all_returned(),
        ..f
    };
    let batch = (f.paused->0).batch;
    lemma_resettled_wants(g, now, batch, rs, i);
    let h = FolderView { window: None, ..g.resettled(now, batch, rs) };
    reveal(FolderView::unfrozen);
    let x = FolderView { deferred: thawed(h.deferred), ..h };
    let l = frozen_among(h.deferred, in_order(h.deferred.dom()));
    lemma_let_in_keeps(
        x.counting(fallbacks_of(x.index, l)),
        now,
        candidates_of(x.index, l),
        true,
        p,
    );
}

} // verus!
