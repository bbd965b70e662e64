//! The host can keep a copy of every want-list: each want that an event changed, made or ended is
//! reported as it now stands.

use crate::batch::{apply_set_of, classified, last_by_path, BatchView, ItemView};
use crate::engine_view::{
    folder_step, plus_used, record_actions, status_actions, step_actions, want_actions,
    without_peer, ActionView, EngineStep, EngineView, EventView, FoldersStep, TickStep,
};
use crate::entry::EntryView;
use crate::folder::{ApplyOutcome, DeferredReason, ScanState};
use crate::folder_view::{
    as_candidates, by_path, candidates_of, fallbacks_of, frozen_among, joined_statuses, kept,
    paired, released_among, taken, thawed, CandidateView, FolderView, Groups, Receiving, Sorting,
    WithChanges, WithSteps,
};
use crate::id::{BatchId, FolderId, NodeId};
use crate::index::RevertedView;
use crate::laws::engine::{lemma_schedule_all, lemma_taken_in};
use crate::order::{in_order, lemma_order_facts};
use crate::rules::Rules;
use crate::time::Timestamp;
use crate::version::Vector;
use crate::want::{
    distinct, fetch_keys, overdue_among, served_among, Dispatched, FetchReport, Tier, WantListView,
    WantState, WantStepView, WantView, Wants,
};
use vstd::prelude::*;

verus! {

/// Whether every want that differs between two states of a list is noted as changed, and nothing
/// that was noted is forgotten.
pub open spec fn noting(a: WantListView, b: WantListView) -> bool {
    &&& forall|p: Seq<u8>| #[trigger] a.changed.contains(p) ==> b.changed.contains(p)
    &&& forall|p: Seq<u8>| #[trigger] b.get(p) != a.get(p) ==> b.changed.contains(p)
}

proof fn lemma_chain(a: WantListView, b: WantListView, c: WantListView)
    requires
        noting(a, b),
        noting(b, c),
    ensures
        noting(a, c),
{
    assert forall|p: Seq<u8>| #[trigger] c.get(p) != a.get(p) implies c.changed.contains(p) by {
        if c.get(p) == b.get(p) {
            assert(b.get(p) != a.get(p));
            assert(b.changed.contains(p));
        }
    }
}

proof fn lemma_noted(changed: Seq<Seq<u8>>, path: Seq<u8>)
    ensures
        crate::want::noted(changed, path).contains(path),
        forall|p: Seq<u8>| #[trigger]
            changed.contains(p) ==> crate::want::noted(changed, path).contains(p),
{
    let n = crate::want::noted(changed, path);
    assert(n[n.len() - 1] == path);
    assert forall|p: Seq<u8>| #[trigger] changed.contains(p) implies n.contains(p) by {
        let i = choose|i: int| 0 <= i < changed.len() && changed[i] == p;
        assert(n[i] == p);
    }
}

proof fn lemma_put(s: WantListView, path: Seq<u8>, w: WantView)
    ensures
        noting(s, s.put(path, w)),
        noting(s, s.removed(path)),
{
    lemma_noted(s.changed, path);
}

/// Every single operation on the want-list notes what it changes.
pub proof fn law_operations_note_changes(
    s: WantListView,
    item: ItemView,
    received: EntryView,
    batch: BatchId,
    source: NodeId,
    seq_high: u64,
    path: Seq<u8>,
    version: Vector,
    report: FetchReport,
    w: WantView,
    now: Timestamp,
)
    ensures
        noting(s, s.put(path, w)),
        noting(s, s.removed(path)),
        noting(s, s.inserted(item, received, batch, source, seq_high)),
        noting(s, s.announced(path, version, source)),
        noting(s, s.reported(path, version, report)),
        noting(s, s.progressed(now, path, version)),
        noting(s, s.restored(w)),
        noting(s, s.with_state(path, w.state)),
{
    lemma_put(s, path, w);
    lemma_inserted(s, item, received, batch, source, seq_high);
    lemma_announced(s, path, version, source);
    lemma_put(s, path, s.wants[path].reported(report));
    lemma_put(
        s,
        path,
        WantView {
            state: WantState::Fetching {
                from: s.wants[path].state->Fetching_from,
                deadline: now.plus(crate::time::FETCH_STALL_NANOS as int),
            },
            ..s.wants[path]
        },
    );
    lemma_put(s, w.entry.path, WantView { state: w.state.settled(), fetched: false, ..w });
    lemma_with_state(s, path, w.state);
}

proof fn lemma_inserted(
    s: WantListView,
    item: ItemView,
    received: EntryView,
    batch: BatchId,
    source: NodeId,
    seq_high: u64,
)
    ensures
        noting(s, s.inserted(item, received, batch, source, seq_high)),
{
    let path = item.entry.path;
    lemma_put(s, path, s.wants[path].with_source(source));
    lemma_put(s, path, WantView::of_item(item, received, batch, source, seq_high));
}

proof fn lemma_announced(s: WantListView, path: Seq<u8>, version: Vector, by: NodeId)
    ensures
        noting(s, s.announced(path, version, by)),
{
    lemma_put(s, path, s.wants[path].with_source(by));
}

proof fn lemma_with_state(s: WantListView, path: Seq<u8>, state: WantState)
    ensures
        noting(s, s.with_state(path, state)),
{
    lemma_put(s, path, WantView { state, ..s.wants[path] });
}

proof fn lemma_with_states(s: WantListView, ps: Seq<Seq<u8>>, state: WantState)
    ensures
        noting(s, s.with_states(ps, state)),
    decreases ps.len(),
{
    if ps.len() > 0 {
        let t = s.with_states(ps.drop_last(), state);
        lemma_with_states(s, ps.drop_last(), state);
        lemma_with_state(t, ps.last(), state);
        lemma_chain(s, t, s.with_states(ps, state));
    }
}

// ---- letting in -------------------------------------------------------------

proof fn lemma_wanting_all(
    f: FolderView,
    pairs: Seq<(ItemView, EntryView)>,
    batch: BatchId,
    source: NodeId,
    seq_high: u64,
)
    ensures
        noting(f.wants, f.wanting_all(pairs, batch, source, seq_high).wants),
    decreases pairs.len(),
{
    if pairs.len() > 0 {
        let t = pairs.drop_last();
        lemma_wanting_all(f, t, batch, source, seq_high);
        let b = f.wanting_all(t, batch, source, seq_high);
        lemma_inserted(b.wants, pairs.last().0, pairs.last().1, batch, source, seq_high);
        lemma_chain(
            f.wants,
            b.wants,
            f.wanting_all(pairs, batch, source, seq_high).wants,
        );
    }
}

proof fn lemma_admit_groups(
    f: FolderView,
    now: Timestamp,
    groups: Groups,
    ks: Seq<((BatchId, NodeId), u64)>,
    brake: bool,
)
    ensures
        noting(f.wants, f.admit_groups(now, groups, ks, brake).wants),
    decreases ks.len(),
{
    if ks.len() > 0 {
        lemma_admit_groups(f, now, groups, ks.drop_last(), brake);
        let g = f.admit_groups(now, groups, ks.drop_last(), brake);
        let k = ks.last();
        reveal(FolderView::admit_group);
        lemma_wanting_all(g, by_path(groups[k]), k.0.0, k.0.1, k.1);
        lemma_chain(f.wants, g.wants, f.admit_groups(now, groups, ks, brake).wants);
    }
}

proof fn lemma_sort_all(s: Sorting, cs: Seq<CandidateView>, brake: bool)
    ensures
        noting(s.wants, s.sort_all(cs, brake).wants),
    decreases cs.len(),
{
    if cs.len() > 0 {
        let c = cs.last();
        lemma_sort_all(s, cs.drop_last(), brake);
        let t = s.sort_all(cs.drop_last(), brake);
        lemma_announced(t.wants, c.item.entry.path, c.item.entry.version, c.source);
        lemma_chain(s.wants, t.wants, s.sort_all(cs, brake).wants);
    }
}

proof fn lemma_let_in(f: FolderView, now: Timestamp, cs: Seq<CandidateView>, brake: bool)
    ensures
        noting(f.wants, f.let_in(now, cs, brake).wants),
{
    reveal(FolderView::let_in);
    let s0 = Sorting {
        wants: f.wants,
        quarantine: f.quarantine,
        groups: Map::empty(),
        joined: Map::empty(),
    };
    lemma_sort_all(s0, cs, brake);
    let t = f.sorted_out(cs, brake);
    let g = FolderView {
        wants: t.wants,
        quarantine: t.quarantine,
        statuses: f.statuses + joined_statuses(t.joined, in_order(t.joined.dom())),
        ..f
    };
    lemma_admit_groups(g, now, t.groups, in_order(t.groups.dom()), brake);
    lemma_chain(f.wants, t.wants, f.let_in(now, cs, brake).wants);
}

proof fn lemma_naming(f: FolderView, path: Seq<u8>, version: Vector, by: Seq<NodeId>)
    ensures
        noting(f.wants, f.naming(path, version, by).wants),
    decreases by.len(),
{
    if by.len() > 0 {
        lemma_naming(f, path, version, by.drop_last());
        let t = f.naming(path, version, by.drop_last());
        lemma_announced(t.wants, path, version, by.last());
        lemma_chain(f.wants, t.wants, f.naming(path, version, by).wants);
    }
}

proof fn lemma_rederived(
    f: FolderView,
    now: Timestamp,
    path: Seq<u8>,
    old: WantView,
    entry: EntryView,
)
    ensures
        noting(f.wants, f.rederived(now, path, old, entry).wants),
{
    reveal(FolderView::rederived);
    let c = classified(f.index, entry);
    lemma_put(f.wants, path, old);
    let s = FolderView { wants: f.wants.removed(path), ..f }.counting(
        if c.fallback {
            1
        } else {
            0
        },
    );
    if c.item is Some {
        let cs = seq![
            CandidateView {
                item: c.item->0,
                raw: old.received,
                batch: old.batch,
                source: old.source,
                seq_high: old.seq_high,
            },
        ];
        lemma_let_in(s, now, cs, true);
        let t = s.let_in(now, cs, true);
        lemma_chain(f.wants, s.wants, t.wants);
        lemma_naming(t, path, old.entry.version, in_order(old.sources));
        lemma_chain(
            f.wants,
            t.wants,
            t.naming(path, old.entry.version, in_order(old.sources)).wants,
        );
    }
}

/// Deriving anew what is wanted notes what it changes.
pub proof fn law_deriving_anew_notes(
    f: FolderView,
    now: Timestamp,
    path: Seq<u8>,
    reason: DeferredReason,
)
    ensures
        noting(f.wants, f.reclassified(now, path).wants),
        noting(f.wants, f.redone(now, path).wants),
        noting(f.wants, f.reconsidered(now, path, reason).wants),
        noting(f.wants, f.unfrozen(now).wants),
{
    if f.wants.get(path) is Some {
        let old = f.wants.get(path)->0;
        lemma_rederived(f, now, path, old, old.entry);
        lemma_rederived(f, now, path, old, old.received);
    }
    reveal(FolderView::reconsidered);
    reveal(FolderView::unfrozen);
    if f.deferred.contains_key(path) {
        let list = f.deferred[path];
        let rest = kept(list, reason);
        let g = FolderView {
            deferred: if rest.len() > 0 {
                f.deferred.insert(path, rest)
            } else {
                f.deferred.remove(path)
            },
            ..f
        };
        let l = taken(list, reason);
        lemma_let_in(
            g.counting(fallbacks_of(g.index, l)),
            now,
            candidates_of(g.index, l),
            true,
        );
    }
    let g = FolderView { deferred: thawed(f.deferred), ..f };
    let l = frozen_among(f.deferred, in_order(f.deferred.dom()));
    lemma_let_in(g.counting(fallbacks_of(g.index, l)), now, candidates_of(g.index, l), true);
}

proof fn lemma_reconsidered_all(f: FolderView, now: Timestamp, ps: Seq<Seq<u8>>)
    ensures
        noting(f.wants, f.reconsidered_all(now, ps).wants),
    decreases ps.len(),
{
    if ps.len() > 0 {
        lemma_reconsidered_all(f, now, ps.drop_last());
        let t = f.reconsidered_all(now, ps.drop_last());
        law_deriving_anew_notes(t, now, ps.last(), DeferredReason::ChangedUnderneath);
        lemma_chain(f.wants, t.wants, f.reconsidered_all(now, ps).wants);
    }
}

proof fn lemma_reclassified_all(f: FolderView, now: Timestamp, ps: Seq<Seq<u8>>)
    ensures
        noting(f.wants, f.reclassified_all(now, ps).wants),
    decreases ps.len(),
{
    if ps.len() > 0 {
        lemma_reclassified_all(f, now, ps.drop_last());
        let t = f.reclassified_all(now, ps.drop_last());
        law_deriving_anew_notes(t, now, ps.last(), DeferredReason::ChangedUnderneath);
        lemma_chain(f.wants, t.wants, f.reclassified_all(now, ps).wants);
    }
}

// ---- events -----------------------------------------------------------------

proof fn lemma_scanned(f: FolderView, now: Timestamp, path: Seq<u8>, state: ScanState)
    ensures
        noting(f.wants, f.scanned(now, path, state).wants),
{
    let s = f.seen(path);
    if !(f.ignores(path, state) || (state is Unchanged && f.index.live(path) is None)) {
        let t = FolderView { index: f.scan_index(now, path, state), ..s };
        law_deriving_anew_notes(
            t.touched(now),
            now,
            path,
            DeferredReason::ChangedUnderneath,
        );
        let u = if f.scan_change(now, path, state) is Some {
            t.touched(now).reclassified(now, path)
        } else {
            t
        };
        law_deriving_anew_notes(u, now, path, DeferredReason::ChangedUnderneath);
        lemma_chain(f.wants, u.wants, f.scanned(now, path, state).wants);
    }
}

proof fn lemma_vanished_all(w: WithChanges, now: Timestamp, ps: Seq<Seq<u8>>)
    ensures
        noting(w.folder.wants, w.vanished_all(now, ps).folder.wants),
    decreases ps.len(),
{
    if ps.len() > 0 {
        let p = ps.last();
        lemma_vanished_all(w, now, ps.drop_last());
        let s = w.vanished_all(now, ps.drop_last()).folder;
        let t = FolderView { index: s.index.observe_absent(p, now.0), ..s };
        law_deriving_anew_notes(t, now, p, DeferredReason::ChangedUnderneath);
        let u = t.reclassified(now, p);
        law_deriving_anew_notes(u, now, p, DeferredReason::ChangedUnderneath);
        law_deriving_anew_notes(s, now, p, DeferredReason::ChangedUnderneath);
        lemma_chain(
            t.wants,
            u.wants,
            u.reconsidered(now, p, DeferredReason::ChangedUnderneath).wants,
        );
        lemma_chain(w.folder.wants, s.wants, w.vanished_all(now, ps).folder.wants);
    }
}

proof fn lemma_scan_finished(f: FolderView, now: Timestamp)
    ensures
        noting(f.wants, f.scan_finished(now).wants),
{
    if f.scan is Some {
        let seen = f.scan->0;
        let s = FolderView { scan: None, ..f };
        let gone = s.gone_among(
            crate::index::live_among(s.index.records, s.index.paths()),
            seen,
        );
        lemma_vanished_all(WithChanges { folder: s, changes: Seq::empty() }, now, gone);
        let t = f.scan_swept(now, seen).folder;
        lemma_reconsidered_all(t, now, t.unseen_among(in_order(t.deferred.dom()), seen));
        lemma_chain(f.wants, t.wants, f.scan_finished(now).wants);
    }
}

proof fn lemma_sourced(
    f: FolderView,
    raw: Map<Seq<u8>, EntryView>,
    ks: Seq<Seq<u8>>,
    source: NodeId,
)
    ensures
        noting(f.wants, f.sourced(raw, ks, source).wants),
    decreases ks.len(),
{
    if ks.len() > 0 {
        lemma_sourced(f, raw, ks.drop_last(), source);
        let t = f.sourced(raw, ks.drop_last(), source);
        lemma_announced(t.wants, ks.last(), raw[ks.last()].version, source);
        lemma_chain(f.wants, t.wants, f.sourced(raw, ks, source).wants);
    }
}

proof fn lemma_sort_received(
    r: Receiving,
    items: Seq<ItemView>,
    raw: Map<Seq<u8>, EntryView>,
    batch: BatchView,
)
    ensures
        r.sort_all(items, raw, batch).folder.wants == r.folder.wants,
    decreases items.len(),
{
    if items.len() > 0 {
        lemma_sort_received(r, items.drop_last(), raw, batch);
    }
}

proof fn lemma_received(f: FolderView, now: Timestamp, batch: BatchView)
    ensures
        noting(f.wants, f.received(now, batch).folder.wants),
{
    let s = FolderView {
        index: f.index.received(batch.source, batch.seq_low, batch.seq_high),
        ..f
    };
    let set = apply_set_of(s.index, batch);
    let raw = last_by_path(batch.entries);
    let c = s.counting(set.fallbacks);
    lemma_sourced(c, raw, in_order(raw.dom()), batch.source);
    let t = c.sourced(raw, in_order(raw.dom()), batch.source);
    lemma_sort_received(
        Receiving {
            folder: t,
            kept: Seq::empty(),
            joined: 0,
            frozen: 0,
            already_wanted: 0,
        },
        set.items,
        raw,
        batch,
    );
    let r = f.receiving(batch);
    lemma_wanting_all(
        r.folder,
        paired(r.kept, raw),
        batch.id,
        batch.source,
        batch.seq_high,
    );
    lemma_chain(
        f.wants,
        r.folder.wants,
        r.folder.wanting_all(
            paired(r.kept, raw),
            batch.id,
            batch.source,
            batch.seq_high,
        ).wants,
    );
}

proof fn lemma_approve(f: FolderView, now: Timestamp, batch: BatchId)
    ensures
        noting(f.wants, f.approve(now, batch).folder.wants),
{
    if f.quarantine.items.contains_key(batch) {
        let item = f.quarantine.items[batch];
        let ks = in_order(item.entries.dom());
        let pairs = by_path(released_among(f.index, item.entries, ks));
        let s = FolderView { quarantine: f.quarantine.released(batch), ..f }.counting(
            crate::batch::fallbacks_among(f.index, item.entries, ks),
        );
        lemma_let_in(
            s,
            now,
            as_candidates(pairs, item.batch, item.source, item.seq_high),
            false,
        );
    } else {
        law_deriving_anew_notes(
            FolderView { paused: None, ..f.announced() },
            now,
            Seq::empty(),
            DeferredReason::Frozen,
        );
    }
}

proof fn lemma_bumped_all(w: WithChanges, now: Timestamp, ps: Seq<Seq<u8>>)
    ensures
        w.bumped_all(now, ps).folder.wants == w.folder.wants,
    decreases ps.len(),
{
    if ps.len() > 0 {
        lemma_bumped_all(w, now, ps.drop_last());
    }
}

proof fn lemma_denial(f: FolderView, now: Timestamp, batch: BatchId)
    ensures
        noting(f.wants, f.denial(now, batch).folder.wants),
{
    let ps = in_order(f.quarantine.items[batch].entries.dom());
    let w0 = WithChanges { folder: f, changes: Seq::empty() };
    lemma_bumped_all(w0, now, ps);
    let w = w0.bumped_all(now, ps);
    let s = FolderView { quarantine: w.folder.quarantine.denial(batch), ..w.folder };
    let t = if ps.len() > 0 {
        s.touched(now)
    } else {
        s
    };
    lemma_reclassified_all(t, now, ps);
}

proof fn lemma_resettled(f: FolderView, now: Timestamp, batch: BatchId, rs: Seq<RevertedView>)
    ensures
        noting(f.wants, f.resettled(now, batch, rs).wants),
    decreases rs.len(),
{
    if rs.len() > 0 {
        lemma_resettled(f, now, batch, rs.drop_last());
        let t = f.resettled(now, batch, rs.drop_last());
        let r = rs.last();
        law_deriving_anew_notes(t, now, r.path, DeferredReason::ChangedUnderneath);
        let e = (r.restored->0).entry;
        lemma_put(t.wants, e.path, t.restoring_want(e, batch));
        lemma_chain(f.wants, t.wants, f.resettled(now, batch, rs).wants);
    }
}

proof fn lemma_reverted(f: FolderView, now: Timestamp)
    ensures
        noting(f.wants, f.reverted(now).wants),
{
    if f.paused is Some {
        let rs = f.index.reverted_list();
        let g = FolderView {
            paused: None,
            index: f.index.reverted(),
            quarantine: f.quarantine.all_returned(),
            ..f
        };
        let batch = (f.paused->0).batch;
        lemma_resettled(g, now, batch, rs);
        let h = FolderView { window: None, ..g.resettled(now, batch, rs) };
        law_deriving_anew_notes(h, now, Seq::empty(), DeferredReason::Frozen);
        lemma_chain(f.wants, h.wants, h.unfrozen(now).wants);
    }
}

proof fn lemma_fetched(
    f: FolderView,
    now: Timestamp,
    path: Seq<u8>,
    version: Vector,
    report: FetchReport,
)
    ensures
        noting(f.wants, f.fetched(now, path, version, report).wants),
{
    let a = f.wants.reported(path, version, report);
    lemma_put(f.wants, path, f.wants.wants[path].reported(report));
    lemma_put(a, path, a.wants[path]);
    lemma_chain(f.wants, a, a.removed(path));
}

proof fn lemma_applied(
    f: FolderView,
    now: Timestamp,
    path: Seq<u8>,
    version: Vector,
    outcome: ApplyOutcome,
)
    ensures
        noting(f.wants, f.applied(now, path, version, outcome).folder.wants),
{
    if f.wants.wants_version(path, version) {
        let w = f.wants.wants[path];
        lemma_put(f.wants, path, w);
        let s = FolderView { wants: f.wants.removed(path), ..f };
        let t = s.adopting(now, w.entry);
        law_deriving_anew_notes(t, now, path, DeferredReason::ChangedUnderneath);
        lemma_chain(
            f.wants,
            t.wants,
            t.reconsidered(now, path, DeferredReason::ChangedUnderneath).wants,
        );
        if w.conflict is Some {
            let copy = w.conflict->0;
            let e = t.index.copy_entry(copy.path, copy.loser);
            let u = FolderView { index: t.index.written(e), ..t }.touched(now);
            law_deriving_anew_notes(u, now, copy.path, DeferredReason::ChangedUnderneath);
            let v = u.reclassified(now, copy.path);
            lemma_chain(f.wants, u.wants, v.wants);
            law_deriving_anew_notes(v, now, path, DeferredReason::ChangedUnderneath);
            lemma_chain(
                f.wants,
                v.wants,
                v.reconsidered(now, path, DeferredReason::ChangedUnderneath).wants,
            );
        }
    }
}

/// Every event notes which wants of its folder it changes.
proof fn lemma_step(
    f: FolderView,
    id: FolderId,
    own: NodeId,
    peers: Map<NodeId, Tier>,
    now: Timestamp,
    event: EventView,
)
    ensures
        noting(f.wants, folder_step(f, id, own, peers, now, event).folder.wants),
{
    match event {
        EventView::Scanned { folder, path, state } => {
            lemma_scanned(f, now, path, state);
        },
        EventView::ScanFinished { folder } => {
            lemma_scan_finished(f, now);
        },
        EventView::BatchReceived { from, batch } => {
            lemma_received(f, now, batch);
        },
        EventView::Fetched { folder, path, hash, version, outcome } => {
            lemma_fetched(f, now, path, version, outcome);
        },
        EventView::FetchProgress { folder, path, hash, version } => {
            lemma_put(
                f.wants,
                path,
                WantView {
                    state: WantState::Fetching {
                        from: f.wants.wants[path].state->Fetching_from,
                        deadline: now.plus(crate::time::FETCH_STALL_NANOS as int),
                    },
                    ..f.wants.wants[path]
                },
            );
        },
        EventView::WantRestored { folder, want } => {
            lemma_put(
                f.wants,
                want.entry.path,
                WantView { state: want.state.settled(), fetched: false, ..want },
            );
        },
        EventView::Applied { folder, path, version, outcome } => {
            lemma_applied(f, now, path, version, outcome);
        },
        EventView::Approve { folder, batch } => {
            lemma_approve(f, now, batch);
        },
        EventView::Deny { folder, batch } => {
            lemma_denial(f, now, batch);
        },
        EventView::Revert { folder } => {
            lemma_reverted(f, now);
        },
        _ => {},
    }
}

// ---- dispatching ------------------------------------------------------------

proof fn lemma_reselected(
    s: WantListView,
    from: Wants,
    ks: Seq<Seq<u8>>,
    rules: Rules,
    peers: Map<NodeId, Tier>,
)
    ensures
        noting(s, s.reselected(from, ks, rules, peers)),
    decreases ks.len(),
{
    if ks.len() > 0 {
        let k = ks.last();
        lemma_reselected(s, from, ks.drop_last(), rules, peers);
        let t = s.reselected(from, ks.drop_last(), rules, peers);
        let r = s.reselected(from, ks, rules, peers);
        assert(noting(t, r)) by {
            match crate::want::selected(from[k], rules, peers) {
                crate::want::SelectionView::Sources(_) => {},
                crate::want::SelectionView::NoSource => {
                    lemma_with_state(t, k, WantState::NoSource);
                },
                crate::want::SelectionView::Deferred(need) => {
                    lemma_with_state(t, k, WantState::Deferred { need });
                },
            }
        }
        lemma_chain(s, t, r);
    }
}

proof fn lemma_fetches(
    d: Dispatched,
    from: Wants,
    ks: Seq<((Tier, NodeId), Seq<u8>)>,
    now: Timestamp,
    rules: Rules,
    peers: Map<NodeId, Tier>,
)
    ensures
        noting(d.list, d.fetches(from, ks, now, rules, peers).list),
    decreases ks.len(),
{
    if ks.len() > 0 {
        lemma_fetches(d, from, ks.drop_last(), now, rules, peers);
        let t = d.fetches(from, ks.drop_last(), now, rules, peers);
        let r = d.fetches(from, ks, now, rules, peers);
        let path = ks.last().1;
        let sources = crate::want::selected(from[path], rules, peers)->Sources_0;
        lemma_with_state(t.list, path, WantState::Wanted);
        match t.list.free_source(sources, rules) {
            Some(node) => {
                lemma_with_state(
                    t.list,
                    path,
                    WantState::Fetching {
                        from: node,
                        deadline: now.plus(crate::time::FETCH_STALL_NANOS as int),
                    },
                );
            },
            None => {},
        }
        lemma_chain(d.list, t.list, r.list);
    }
}

proof fn lemma_commits(d: Dispatched, ps: Seq<Seq<u8>>, now: Timestamp)
    ensures
        noting(d.list, d.commits(ps, now).list),
    decreases ps.len(),
{
    if ps.len() > 0 {
        let p = ps.last();
        lemma_commits(d, ps.drop_last(), now);
        let t = d.commits(ps.drop_last(), now);
        lemma_with_state(t.list, p, WantState::Blocked);
        lemma_with_state(
            t.list,
            p,
            WantState::Committing {
                deadline: now.plus(crate::time::COMMIT_DEADLINE_NANOS as int),
            },
        );
        lemma_put(t.list, p, t.list.wants[p]);
        lemma_chain(d.list, t.list, d.commits(ps, now).list);
    }
}

proof fn lemma_take_all(w: WithSteps, now: Timestamp, steps: Seq<WantStepView>)
    ensures
        noting(w.folder.wants, w.take_all(now, steps).folder.wants),
    decreases steps.len(),
{
    if steps.len() > 0 {
        lemma_take_all(w, now, steps.drop_last());
        let s = w.take_all(now, steps.drop_last()).folder;
        match steps.last() {
            WantStepView::Adopt(x) => {
                law_deriving_anew_notes(
                    s.adopting(now, x.entry),
                    now,
                    x.entry.path,
                    DeferredReason::ChangedUnderneath,
                );
                law_deriving_anew_notes(
                    s.postponing(x),
                    now,
                    x.entry.path,
                    DeferredReason::ChangedUnderneath,
                );
            },
            _ => {},
        }
        lemma_chain(w.folder.wants, s.wants, w.take_all(now, steps).folder.wants);
    }
}

proof fn lemma_dispatched(f: FolderView, now: Timestamp, peers: Map<NodeId, Tier>)
    ensures
        noting(f.wants, f.dispatched(now, peers).folder.wants),
{
    let s = f.wants;
    lemma_reselected(s, s.wants, s.paths(), f.rules, peers);
    let c = s.reselected(s.wants, s.paths(), f.rules, peers);
    lemma_fetches(
        Dispatched { list: c, steps: Seq::empty() },
        s.wants,
        in_order(fetch_keys(s.wants, f.rules, peers)),
        now,
        f.rules,
        peers,
    );
    let p = s.fetch_phase(now, f.rules, peers);
    lemma_chain(s, c, p.list);
    lemma_commits(p, p.list.commit_order(), now);
    let d = s.dispatched(now, f.rules, peers);
    lemma_chain(s, p.list, d.list);
    lemma_take_all(
        WithSteps {
            folder: FolderView { wants: d.list, ..f },
            host: Seq::empty(),
            adopted: Seq::empty(),
        },
        now,
        d.steps,
    );
    lemma_chain(s, d.list, f.dispatched(now, peers).folder.wants);
}

// ---- all folders ------------------------------------------------------------

/// Whether some actions report a want of a folder as it stands.
pub open spec fn tells_want(
    acts: Seq<ActionView>,
    id: FolderId,
    p: Seq<u8>,
    want: Option<WantView>,
) -> bool {
    exists|i: int|
        0 <= i < acts.len() && #[trigger] acts[i] == (ActionView::WantChanged {
            folder: id,
            path: p,
            want,
        })
}

proof fn lemma_tells_more(
    a: Seq<ActionView>,
    b: Seq<ActionView>,
    id: FolderId,
    p: Seq<u8>,
    want: Option<WantView>,
)
    requires
        tells_want(a, id, p, want),
    ensures
        tells_want(a + b, id, p, want),
{
    let x = ActionView::WantChanged { folder: id, path: p, want };
    let i = choose|i: int| 0 <= i < a.len() && #[trigger] a[i] == x;
    assert((a + b)[i] == x);
}

proof fn lemma_distinct(q: Seq<Seq<u8>>, p: Seq<u8>)
    requires
        q.contains(p),
    ensures
        distinct(q).contains(p),
    decreases q.len(),
{
    let t = q.drop_last();
    let i = choose|i: int| 0 <= i < q.len() && q[i] == p;
    if t.contains(p) {
        lemma_distinct(t, p);
        let d = distinct(t);
        let j = choose|j: int| 0 <= j < d.len() && d[j] == p;
        assert(distinct(q)[j] == p);
    } else {
        if i < t.len() {
            assert(t[i] == p);
        }
        assert(q.last() == p);
        assert(distinct(q)[distinct(q).len() - 1] == p);
    }
}

/// Driving a folder reports every want that is noted.
proof fn lemma_pump(
    s: FoldersStep,
    k: FolderId,
    peers: Map<NodeId, Tier>,
    now: Timestamp,
    p: Seq<u8>,
)
    ensures
        s.pump(k, peers, now).folders[k].wants.get(p) != s.folders[k].wants.get(p)
            || s.folders[k].wants.changed.contains(p) ==> tells_want(
            s.pump(k, peers, now).actions,
            k,
            p,
            s.pump(k, peers, now).folders[k].wants.get(p),
        ),
        forall|id: FolderId| id != k ==> #[trigger] s.pump(k, peers, now).folders[id]
            == s.folders[id],
        exists|extra: Seq<ActionView>| s.pump(k, peers, now).actions == #[trigger] (s.actions
            + extra),
{
    reveal(FoldersStep::pump);
    let f0 = s.folders[k];
    lemma_dispatched(f0, now, peers);
    let d = f0.dispatched(now, peers);
    let f = d.folder;
    let changed = distinct(f.wants.changed);
    let r = s.pump(k, peers, now);
    let l = Seq::new(changed.len(), |i: int| (changed[i], f.wants.get(changed[i])));
    let a = s.actions + step_actions(k, f, d.host) + record_actions(k, d.adopted);
    let b = want_actions(k, l);
    let c = status_actions(k, f.statuses);
    assert(r.actions =~= a + b + c);
    assert(r.actions =~= s.actions + (step_actions(k, f, d.host) + record_actions(k, d.adopted) + b
        + c));
    if r.folders[k].wants.get(p) != f0.wants.get(p) || f0.wants.changed.contains(p) {
        assert(r.folders[k].wants.get(p) == f.wants.get(p));
        assert(f.wants.changed.contains(p));
        lemma_distinct(f.wants.changed, p);
        let i = choose|i: int| 0 <= i < changed.len() && changed[i] == p;
        let n = a.len() + i;
        assert(r.actions[n as int] == b[i]);
    }
}

proof fn lemma_pump_all(
    s: FoldersStep,
    ks: Seq<FolderId>,
    peers: Map<NodeId, Tier>,
    now: Timestamp,
    id: FolderId,
    p: Seq<u8>,
)
    requires
        ks.no_duplicates(),
    ensures
        ({
            let r = s.pump_all(ks, peers, now);
            &&& ks.contains(id) && (r.folders[id].wants.get(p) != s.folders[id].wants.get(p)
                || s.folders[id].wants.changed.contains(p)) ==> tells_want(
                r.actions,
                id,
                p,
                r.folders[id].wants.get(p),
            )
            &&& !ks.contains(id) ==> r.folders[id] == s.folders[id]
        }),
    decreases ks.len(),
{
    if ks.len() > 0 {
        let t = ks.drop_last();
        let k = ks[ks.len() - 1];
        assert forall|i: int, j: int| 0 <= i < t.len() && 0 <= j < t.len() && i != j implies t[i]
            != t[j] by {
            assert(ks[i] != ks[j]);
        }
        lemma_pump_all(s, t, peers, now, id, p);
        let m = s.pump_all(t, peers, now);
        lemma_pump(m, k, peers, now, p);
        let r = s.pump_all(ks, peers, now);
        assert(!t.contains(k)) by {
            if t.contains(k) {
                let i = choose|i: int| 0 <= i < t.len() && t[i] == k;
                assert(ks[i] != ks[ks.len() - 1]);
            }
        }
        assert(ks.contains(id) <==> t.contains(id) || k == id) by {
            if ks.contains(id) {
                let i = choose|i: int| 0 <= i < ks.len() && ks[i] == id;
                if i < t.len() {
                    assert(t[i] == id);
                }
            }
            if t.contains(id) {
                let i = choose|i: int| 0 <= i < t.len() && t[i] == id;
                assert(ks[i] == id);
            }
            assert(ks[ks.len() - 1] == k);
        }
        if t.contains(id) && tells_want(m.actions, id, p, m.folders[id].wants.get(p)) {
            let extra = choose|extra: Seq<ActionView>| r.actions == #[trigger] (m.actions + extra);
            lemma_tells_more(m.actions, extra, id, p, m.folders[id].wants.get(p));
        }
    }
}

proof fn lemma_tick_all(
    s: TickStep,
    ks: Seq<FolderId>,
    own: NodeId,
    peers: Map<NodeId, Tier>,
    now: Timestamp,
    fresh: BatchId,
    id: FolderId,
)
    ensures
        noting(
            s.folders[id].wants,
            s.tick_all(ks, own, peers, now, fresh).folders[id].wants,
        ),
    decreases ks.len(),
{
    if ks.len() > 0 {
        let k = ks.last();
        lemma_tick_all(s, ks.drop_last(), own, peers, now, fresh, id);
        let m = s.tick_all(ks.drop_last(), own, peers, now, fresh);
        reveal(TickStep::tick);
        let f0 = m.folders[k];
        let overdue = overdue_among(f0.wants.wants, f0.wants.paths(), now);
        lemma_with_states(f0.wants, overdue, WantState::Wanted);
        let f1 = FolderView { wants: f0.wants.with_states(overdue, WantState::Wanted), ..f0 };
        let f2 = FolderView { catchup: Set::empty(), ..f1 };
        let used = plus_used(
            m.used,
            f1.catchup_used(now, fresh.after(m.used as int), in_order(f1.catchup)),
        );
        let r = m.tick(k, own, peers, now, fresh);
        assert(r.folders == m.folders.insert(k, f2.ticked(now, fresh.after(used as int))));
        assert(f2.ticked(now, fresh.after(used as int)).wants == f1.wants);
        lemma_chain(s.folders[id].wants, m.folders[id].wants, r.folders[id].wants);
    }
}

proof fn lemma_taken_in_notes(s: EngineView, now: Timestamp, event: EventView, id: FolderId)
    requires
        s.folders.contains_key(id),
    ensures
        noting(s.folders[id].wants, s.taken_in(now, event).engine.folders[id].wants),
{
    match event {
        EventView::Tick { fresh_batch_id } => {
            lemma_tick_all(
                TickStep { folders: s.folders, used: 0, actions: Seq::empty() },
                s.ids(),
                s.node_id,
                s.peers,
                now,
                fresh_batch_id,
                id,
            );
        },
        EventView::FolderJoined { folder, rules, members } => {},
        EventView::PeerConnected { peer, tier } => {},
        EventView::PeerTierChanged { peer, tier } => {},
        EventView::PeerDisconnected { peer } => {
            let f = s.folders[id];
            lemma_with_states(
                f.wants,
                served_among(f.wants.wants, f.wants.paths(), peer),
                WantState::Wanted,
            );
            assert(s.taken_in(now, event).engine.folders[id] == without_peer(f, peer));
        },
        _ => {
            let k = event.folder()->0;
            if s.folders.contains_key(k) {
                lemma_step(s.folders[k], k, s.node_id, s.peers, now, event);
            }
        },
    }
}

/// Every want that an event changed, made or ended is reported, as it stands afterwards.
pub proof fn law_every_want_change_is_reported(
    s: EngineView,
    now: Timestamp,
    event: EventView,
    id: FolderId,
    p: Seq<u8>,
)
    requires
        s.folders.dom().finite(),
        s.folders.contains_key(id),
        s.handled(now, event).engine.folders[id].wants.get(p) != s.folders[id].wants.get(p),
    ensures
        tells_want(
            s.handled(now, event).actions,
            id,
            p,
            s.handled(now, event).engine.folders[id].wants.get(p),
        ),
{
    let t = s.taken_in(now, event);
    lemma_taken_in(s, now, event);
    lemma_taken_in_notes(s, now, event, id);
    let e = t.engine;
    lemma_order_facts(e.folders.dom());
    assert(e.folders.dom().contains(id));
    let start = FoldersStep { folders: e.folders, actions: t.actions };
    lemma_pump_all(start, e.ids(), e.peers, now, id, p);
    let q = t.pumped(now);
    lemma_schedule_all(q, q.engine.ids());
    lemma_schedule_adds(q, q.engine.ids());
    let r = s.handled(now, event);
    let extra = choose|extra: Seq<ActionView>| r.actions == #[trigger] (q.actions + extra);
    if e.folders[id].wants.get(p) != s.folders[id].wants.get(p) {
        assert(e.folders[id].wants.changed.contains(p));
    }
    lemma_tells_more(q.actions, extra, id, p, r.engine.folders[id].wants.get(p));
}

proof fn lemma_schedule_adds(s: EngineStep, ks: Seq<FolderId>)
    ensures
        exists|extra: Seq<ActionView>| s.schedule_all(ks).actions == #[trigger] (s.actions + extra),
    decreases ks.len(),
{
    if ks.len() == 0 {
        assert(s.actions + Seq::<ActionView>::empty() =~= s.actions);
    } else {
        lemma_schedule_adds(s, ks.drop_last());
        let b = s.schedule_all(ks.drop_last());
        let r = s.schedule_all(ks);
        let extra = choose|extra: Seq<ActionView>| b.actions == #[trigger] (s.actions + extra);
        if r.actions != b.actions {
            assert(r.actions =~= s.actions + extra.push(r.actions.last()));
        }
    }
}

} // verus!
