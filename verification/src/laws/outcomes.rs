//! What reverts, rules, restarts and the other events come to, and what is said of it.

use crate::batch::{items_among, ApplyMode};
use crate::engine_view::{
    approved_actions, fetched_actions, folder_step, greetings, revert_actions, scanned_actions,
    ActionView, EngineStep, EngineView, EventView, OutboundView,
};
use crate::entry::{EntryView, Kind};
use crate::folder::{DeferredReason, Paused, ScanState};
use crate::folder_view::{
    revived_among, trashed_among, ApprovedView, FolderView, StatusView, WithChanges,
};
use crate::id::{BatchId, FolderId, NodeId};
use crate::index::{IndexView, RevertedView};
use crate::laws::counting::{held_at_end, law_too_much_is_held, too_many, too_much, tracked_paths};
use crate::laws::folder::{law_deriving_anew_writes_nothing, lemma_reclassified_all};
use crate::laws::engine::lemma_schedule_all;
use crate::order::{in_order, increasing, lemma_order_facts, Ordered};
use crate::rules::Rules;
use crate::time::Timestamp;
use crate::version::Vector;
use crate::want::{FetchReport, Tier, WantState, WantView};
use vstd::prelude::*;

verus! {

// ---- reverting --------------------------------------------------------------

/// What a revert asks for, to have something back: the entry as it was, from every other member;
/// a directory needs no content.
pub proof fn law_what_a_revert_asks_for(f: FolderView, e: EntryView, batch: BatchId)
    ensures
        ({
            let w = f.restoring_want(e, batch);
            &&& w.entry == e
            &&& w.received == e
            &&& w.batch == batch
            &&& w.restoring
            &&& !w.fetched
            &&& w.conflict is None
            &&& w.state == WantState::Wanted
            &&& w.mode == if e.kind == Kind::Dir {
                ApplyMode::Direct
            } else {
                ApplyMode::Fetch
            }
            &&& w.source == f.index.own
            &&& forall|n: NodeId|
                w.sources.contains(n) <==> f.members.contains(n) && n != f.index.own
            &&& w.answered =~= Set::empty()
            &&& w.excluded =~= Set::empty()
            &&& w.mismatches == 0
        }),
{
}

/// What is undone at a path: what is there now, and what peers last saw there.
pub open spec fn undone(s: IndexView, p: Seq<u8>) -> RevertedView {
    RevertedView {
        path: p,
        current: if s.records.contains_key(p) {
            Some(s.records[p].entry)
        } else {
            None
        },
        restored: s.pending[p],
    }
}

proof fn lemma_trashed(rs: Seq<RevertedView>, p: Seq<u8>)
    ensures
        trashed_among(rs).contains(p) <==> exists|i: int|
            0 <= i < rs.len() && (#[trigger] rs[i]).path == p && rs[i].current is Some && !(
            rs[i].current->0).deleted,
        revived_among(rs) == rs.filter(
            |r: RevertedView| r.restored is Some && !(r.restored->0).entry.deleted,
        ).len(),
        trashed_among(rs).len() == rs.filter(
            |r: RevertedView| r.current is Some && !(r.current->0).deleted,
        ).len(),
    decreases rs.len(),
{
    reveal(Seq::filter);
    if rs.len() > 0 {
        let t = rs.drop_last();
        let z = rs.len() - 1;
        lemma_trashed(t, p);
        assert(rs[z] == rs.last());
        let a = trashed_among(t);
        let b = trashed_among(rs);
        if b.contains(p) {
            let i = choose|i: int| 0 <= i < b.len() && b[i] == p;
            if i < a.len() {
                assert(a[i] == p);
                let j = choose|j: int|
                    0 <= j < t.len() && (#[trigger] t[j]).path == p && t[j].current is Some && !(
                    t[j].current->0).deleted;
                assert(rs[j] == t[j]);
            }
        }
        if exists|i: int|
            0 <= i < rs.len() && (#[trigger] rs[i]).path == p && rs[i].current is Some && !(
            rs[i].current->0).deleted {
            let i = choose|i: int|
                0 <= i < rs.len() && (#[trigger] rs[i]).path == p && rs[i].current is Some && !(
                rs[i].current->0).deleted;
            if i < t.len() {
                assert(t[i] == rs[i]);
                let j = choose|j: int| 0 <= j < a.len() && a[j] == p;
                assert(b[j] == p);
            } else {
                assert(b[b.len() - 1] == p);
            }
        }
    }
}

/// A revert of a paused folder undoes every pending change, once, in the order of paths; whatever
/// is there at such a path goes to the trash, and what comes back is counted.
pub proof fn law_revert_exactly(f: FolderView, p: Seq<u8>)
    requires
        f.paused is Some,
        f.index.pending.dom().finite(),
    ensures
        f.revert_result() is Some,
        ({
            let r = f.revert_result()->0;
            &&& r.batch == (f.paused->0).batch
            &&& r.reverted.len() == f.index.pending.dom().len()
            &&& f.index.pending.contains_key(p) ==> r.reverted.contains(undone(f.index, p))
            &&& forall|i: int|
                0 <= i < r.reverted.len() ==> f.index.pending.contains_key(
                    (#[trigger] r.reverted[i]).path,
                ) && r.reverted[i] == undone(f.index, r.reverted[i].path)
            &&& forall|i: int, j: int|
                0 <= i < j < r.reverted.len() ==> (#[trigger] r.reverted[i]).path.before(
                    (#[trigger] r.reverted[j]).path,
                )
            &&& r.trash.contains(p) <==> f.index.pending.contains_key(p)
                && f.index.records.contains_key(p) && !f.index.records[p].entry.deleted
            &&& r.refetch == r.reverted.filter(
                |x: RevertedView| x.restored is Some && !(x.restored->0).entry.deleted,
            ).len()
        }),
{
    let ks = in_order(f.index.pending.dom());
    lemma_order_facts(f.index.pending.dom());
    let rs = f.index.reverted_list();
    lemma_trashed(rs, p);
    assert forall|i: int| 0 <= i < rs.len() implies f.index.pending.contains_key(
        (#[trigger] rs[i]).path,
    ) && rs[i] == undone(f.index, rs[i].path) && rs[i].path == ks[i] by {
        assert(f.index.pending.dom().contains(ks[i]));
    }
    if f.index.pending.contains_key(p) {
        assert(f.index.pending.dom().contains(p));
        let i = choose|i: int| 0 <= i < ks.len() && ks[i] == p;
        assert(rs[i] == undone(f.index, p));
    }
    assert forall|i: int, j: int| 0 <= i < j < rs.len() implies (#[trigger] rs[i]).path.before(
        (#[trigger] rs[j]).path,
    ) by {
        assert(ks[i].before(ks[j]));
    }
    if exists|i: int|
        0 <= i < rs.len() && (#[trigger] rs[i]).path == p && rs[i].current is Some && !(
        rs[i].current->0).deleted {
        let i = choose|i: int|
            0 <= i < rs.len() && (#[trigger] rs[i]).path == p && rs[i].current is Some && !(
            rs[i].current->0).deleted;
        assert(rs[i] == undone(f.index, p));
    }
}

/// Undoing one path: what comes back alive is asked for; anything else that is wanted there is
/// judged again.
pub proof fn law_undone_paths_are_settled(
    f: FolderView,
    now: Timestamp,
    batch: BatchId,
    r: RevertedView,
)
    ensures
        ({
            let g = f.resettled(now, batch, seq![r]);
            if r.restored is Some && !(r.restored->0).entry.deleted {
                let e = (r.restored->0).entry;
                &&& g == (FolderView { wants: g.wants, ..f })
                &&& g.wants.wants == f.wants.wants.insert(e.path, f.restoring_want(e, batch))
            } else {
                g == f.redone(now, r.path)
            }
        }),
{
    let rs = seq![r];
    assert(rs.drop_last() =~= Seq::empty());
    reveal_with_fuel(FolderView::resettled, 2);
}

/// What a revert says: every path that is undone, with the record that is back or that none is;
/// every file that goes to the trash; and how many, with the batch. A folder that is not paused
/// says so, and nothing else happens.
pub proof fn law_revert_is_reported(f: FolderView, id: FolderId, i: int)
    ensures
        f.paused is None ==> revert_actions(f, id) == seq![
            ActionView::StatusChanged { folder: id, status: StatusView::NotPaused },
        ],
        f.paused is Some ==> {
            let r = f.revert_result()->0;
            let a = revert_actions(f, id);
            let n = r.reverted.len();
            &&& a.len() == n + r.trash.len() + 1
            &&& 0 <= i < n ==> a[i] == match r.reverted[i].restored {
                Some(record) => ActionView::IndexChanged { folder: id, record },
                None => ActionView::IndexRemoved { folder: id, path: r.reverted[i].path },
            }
            &&& 0 <= i < r.trash.len() ==> a[n + i] == (ActionView::MoveToTrash {
                folder: id,
                path: r.trash[i],
            })
            &&& a.last() == (ActionView::StatusChanged {
                folder: id,
                status: StatusView::Reverted {
                    batch: r.batch,
                    trashed: r.trash.len(),
                    refetch: r.refetch,
                },
            })
        },
{
}

// ---- rules ------------------------------------------------------------------

/// New rules take the place of the old ones and decide nothing: for every held item, in order, and
/// for a paused folder's own batch it is said whether it would pass under them.
pub proof fn law_new_rules_are_tried(f: FolderView, rules: Rules, i: int)
    requires
        f.index.records.dom().finite(),
        tracked_paths(f.index).len() <= usize::MAX,
        f.index.announced_tracked <= usize::MAX,
    ensures
        ({
            let g = f.ruled(rules);
            let l = f.ruled_result(rules);
            let ks = in_order(f.quarantine.items.dom());
            let count = crate::batch::summary_of(f.index.unannounced());
            let own = !too_many(
                rules,
                held_at_end(count.dels + count.mods),
                f.index.announced_tracked as int,
            ) && count.bytes <= rules.hold_size;
            &&& g.rules == rules
            &&& g == (FolderView { rules, paused: g.paused, ..f })
            &&& f.paused is None ==> g.paused is None && l.len() == ks.len()
            &&& f.paused is Some ==> {
                let p = f.paused->0;
                &&& g.paused == Some(Paused { would_pass: own, summary: count, ..p })
                &&& l.len() == ks.len() + 1
                &&& l.last() == (StatusView::RulesRecheck { batch: p.batch, would_pass: own })
            }
            &&& 0 <= i < ks.len() ==> {
                let item = f.quarantine.items[ks[i]];
                let items = items_among(f.index, item.entries, in_order(item.entries.dom()));
                l[i] == (StatusView::RulesRecheck {
                    batch: item.batch,
                    would_pass: !too_much(rules, f.index, items),
                })
            }
        }),
{
    let s = FolderView { rules, ..f };
    crate::laws::announcing::law_own_changes_are_checked(s);
    let ks = in_order(f.quarantine.items.dom());
    if 0 <= i < ks.len() {
        let item = f.quarantine.items[ks[i]];
        let items = items_among(f.index, item.entries, in_order(item.entries.dom()));
        law_too_much_is_held(rules, f.index, items);
    }
}

// ---- restarting -------------------------------------------------------------

/// A folder that was stored comes back with everything but what only a running engine has: no
/// scan is open, no window either, and nobody has asked for catch-up yet.
pub proof fn law_restart_keeps_the_folder(f: FolderView)
    ensures
        ({
            let g = f.restarted();
            &&& g.scan is None
            &&& g.window is None
            &&& g.catchup =~= Set::empty()
            &&& g == (FolderView {
                scan: None,
                window: None,
                catchup: Set::empty(),
                wants: g.wants,
                ..f
            })
        }),
{
}

/// Every stored folder is there after a restart, under its identifier, as it was but for what a
/// restart takes; nobody is connected.
pub proof fn law_every_folder_is_restored(s: EngineView, l: Seq<FolderView>, i: int)
    requires
        0 <= i < l.len(),
        forall|j: int| i < j < l.len() ==> (#[trigger] l[j]).id != l[i].id,
    ensures
        s.restored(l).folders.contains_key(l[i].id),
        s.restored(l).folders[l[i].id] == l[i].restarted(),
        s.restored(l).peers == s.peers,
        s.restored(l).node_id == s.node_id,
        s.restored(l).author_host == s.author_host,
        s.restored(l).woke == s.woke,
    decreases l.len(),
{
    lemma_restored_rest(s, l);
    let t = l.drop_last();
    let z = l.len() - 1;
    if i < z {
        assert(l[z].id != l[i].id);
        assert(t[i] == l[i]);
        assert forall|j: int| i < j < t.len() implies (#[trigger] t[j]).id != t[i].id by {
            assert(l[j] == t[j]);
        }
        law_every_folder_is_restored(s, t, i);
    }
}

proof fn lemma_restored_rest(s: EngineView, l: Seq<FolderView>)
    ensures
        s.restored(l) == (EngineView { folders: s.restored(l).folders, ..s }),
    decreases l.len(),
{
    if l.len() > 0 {
        lemma_restored_rest(s, l.drop_last());
    }
}

// ---- what is said -----------------------------------------------------------

/// A scan report is answered with the record that changed, with the status that it raised, and
/// with the number of conflicts that the last rule has decided, if that went up.
pub proof fn law_scan_report_is_answered(
    f: FolderView,
    id: FolderId,
    now: Timestamp,
    path: Seq<u8>,
    state: ScanState,
)
    ensures
        ({
            let a = scanned_actions(f, id, now, path, state);
            let r = f.scan_result(now, path, state);
            let g = f.scanned(now, path, state);
            &&& r.change is Some ==> a.len() > 0 && a[0] == (ActionView::IndexChanged {
                folder: id,
                record: (r.change->0).record,
            })
            &&& r.status is Some ==> a.contains(
                ActionView::StatusChanged { folder: id, status: r.status->0 },
            )
            &&& g.winner_fallbacks > f.winner_fallbacks ==> a.len() > 0 && a.last() == (
            ActionView::StatusChanged {
                folder: id,
                status: StatusView::WinnerFallback { count: g.winner_fallbacks },
            })
            &&& a.len() == (if r.change is Some {
                1int
            } else {
                0
            }) + (if r.status is Some {
                1int
            } else {
                0
            }) + (if g.winner_fallbacks > f.winner_fallbacks {
                1int
            } else {
                0
            })
        }),
{
    let a = scanned_actions(f, id, now, path, state);
    let r = f.scan_result(now, path, state);
    if r.status is Some {
        let i: int = if r.change is Some {
            1
        } else {
            0
        };
        assert(a[i] == (ActionView::StatusChanged { folder: id, status: r.status->0 }));
    }
}

/// A report on a fetch is answered only where the want gave up, or where content turned out to
/// exist nowhere: then with the tombstone, and that it cannot be had.
pub proof fn law_fetch_report_is_answered(
    f: FolderView,
    id: FolderId,
    now: Timestamp,
    path: Seq<u8>,
    version: Vector,
    outcome: FetchReport,
)
    ensures
        ({
            let a = fetched_actions(f, id, now, path, version, outcome);
            let r = f.fetch_result(now, path, version, outcome);
            if r.unrecoverable is Some {
                a == seq![
                    ActionView::IndexChanged { folder: id, record: (r.unrecoverable->0).record },
                    ActionView::StatusChanged {
                        folder: id,
                        status: StatusView::Unrecoverable { path },
                    },
                ]
            } else if r.state == Some(WantState::GaveUp) {
                a == seq![
                    ActionView::StatusChanged { folder: id, status: StatusView::GaveUp { path } },
                ]
            } else {
                a.len() == 0
            }
        }),
{
    let a = fetched_actions(f, id, now, path, version, outcome);
    let r = f.fetch_result(now, path, version, outcome);
    if r.unrecoverable is Some {
        assert(r.state is None);
        assert(a =~= seq![
            ActionView::IndexChanged { folder: id, record: (r.unrecoverable->0).record },
            ActionView::StatusChanged { folder: id, status: StatusView::Unrecoverable { path } },
        ]);
    } else if r.state == Some(WantState::GaveUp) {
        assert(a =~= seq![
            ActionView::StatusChanged { folder: id, status: StatusView::GaveUp { path } },
        ]);
    }
}

/// What an approval says: how many entries were released; or, of the folder's own batch, what is
/// sent and that the folder is not paused any more; or that there is no such batch.
pub proof fn law_approval_is_reported(
    f: FolderView,
    id: FolderId,
    own: NodeId,
    peers: Map<NodeId, Tier>,
    now: Timestamp,
    batch: BatchId,
)
    ensures
        ({
            let a = approved_actions(f, id, own, peers, now, batch);
            match f.approve(now, batch).approved {
                ApprovedView::Released(set) => a == seq![
                    ActionView::StatusChanged {
                        folder: id,
                        status: StatusView::Released {
                            batch,
                            items: if set is Some {
                                (set->0).items.len()
                            } else {
                                0
                            },
                        },
                    },
                ],
                ApprovedView::Sent(batches) => a.len() > 0 && a.last() == (
                ActionView::StatusChanged { folder: id, status: StatusView::Unpaused { batch } }),
                ApprovedView::Unknown => a == seq![
                    ActionView::StatusChanged {
                        folder: id,
                        status: StatusView::UnknownBatch { batch },
                    },
                ],
            }
        }),
{
}

/// Which decision an approval is: of a held item if one bears the identifier, else of the folder's
/// own batch if it is paused for it, else of nothing.
pub proof fn law_approval_is_of(f: FolderView, now: Timestamp, batch: BatchId)
    ensures
        ({
            let a = f.approve(now, batch).approved;
            &&& a is Released <==> f.quarantine.items.contains_key(batch)
            &&& a is Sent <==> !f.quarantine.items.contains_key(batch) && f.paused is Some && (
            f.paused->0).batch == batch
            &&& a is Unknown ==> f.approve(now, batch).folder == f
            &&& a is Sent ==> f.approve(now, batch).folder.window is None
        }),
{
    if !f.quarantine.items.contains_key(batch) && f.paused is Some && (f.paused->0).batch
        == batch {
        law_deriving_anew_writes_nothing(
            FolderView { paused: None, ..f.announced() },
            now,
            Seq::empty(),
            DeferredReason::Frozen,
        );
    }
}

/// What a denial does besides writing over what is denied: the item is held no more and is kept
/// for a revert, under the next arrival number; the window opens; and the number of paths is
/// reported. A denial of what is not held is answered so.
pub proof fn law_denial_exactly(
    f: FolderView,
    id: FolderId,
    own: NodeId,
    peers: Map<NodeId, Tier>,
    now: Timestamp,
    batch: BatchId,
)
    ensures
        ({
            let r = folder_step(f, id, own, peers, now, EventView::Deny { folder: id, batch });
            if f.quarantine.items.contains_key(batch) {
                let w = f.denial(now, batch);
                let n = w.changes.len();
                &&& r.folder == w.folder
                &&& r.actions.len() == n + 1
                &&& forall|i: int|
                    0 <= i < n ==> #[trigger] r.actions[i] == (ActionView::IndexChanged {
                        folder: id,
                        record: w.changes[i].record,
                    })
                &&& r.actions.last() == (ActionView::StatusChanged {
                    folder: id,
                    status: StatusView::Denied { batch, paths: n },
                })
                &&& in_order(f.quarantine.items[batch].entries.dom()).len() > 0
                    ==> r.folder.window == f.touched(now).window && exists|g: FolderView|
                    r.folder == #[trigger] g.reclassified_all(
                        now,
                        in_order(f.quarantine.items[batch].entries.dom()),
                    ) && g.quarantine == f.quarantine.denial(batch) && g.wants == f.wants
                        && g.deferred == f.deferred && g.index == r.folder.index
            } else {
                &&& r.folder == f
                &&& r.actions == seq![
                    ActionView::StatusChanged {
                        folder: id,
                        status: StatusView::UnknownBatch { batch },
                    },
                ]
            }
        }),
{
    if f.quarantine.items.contains_key(batch) {
        let ps = in_order(f.quarantine.items[batch].entries.dom());
        let w0 = WithChanges { folder: f, changes: Seq::empty() };
        lemma_bumped_window(w0, now, ps);
        let w = w0.bumped_all(now, ps);
        let s = FolderView { quarantine: w.folder.quarantine.denial(batch), ..w.folder };
        let t = if ps.len() > 0 {
            s.touched(now)
        } else {
            s
        };
        lemma_reclassified_all(t, now, ps);
    }
}

proof fn lemma_bumped_window(w: WithChanges, now: Timestamp, ps: Seq<Seq<u8>>)
    ensures
        w.bumped_all(now, ps).folder == (FolderView {
            index: w.bumped_all(now, ps).folder.index,
            ..w.folder
        }),
    decreases ps.len(),
{
    if ps.len() > 0 {
        lemma_bumped_window(w, now, ps.drop_last());
    }
}

/// A scan is opened anew by its start, closed by its end and by giving it up; to end or give up
/// one that is not open is answered so. New rules, a stored want and progress of a fetch go to
/// what they are about, and change nothing else.
pub proof fn law_small_events(
    f: FolderView,
    id: FolderId,
    own: NodeId,
    peers: Map<NodeId, Tier>,
    now: Timestamp,
    rules: Rules,
    want: WantView,
    path: Seq<u8>,
    hash: crate::entry::ContentHash,
    version: Vector,
)
    ensures
        ({
            let r = folder_step(f, id, own, peers, now, EventView::ScanStarted { folder: id });
            &&& r.actions.len() == 0
            &&& r.folder.scan is Some
            &&& (r.folder.scan->0) =~= Set::empty()
            &&& r.folder == (FolderView { scan: r.folder.scan, ..f })
        }),
        ({
            let r = folder_step(f, id, own, peers, now, EventView::ScanAborted { folder: id });
            &&& r.folder == (FolderView { scan: None, ..f })
            &&& f.scan is Some ==> r.actions.len() == 0
            &&& f.scan is None ==> r.actions == seq![
                ActionView::StatusChanged { folder: id, status: StatusView::ScanNotOpen },
            ]
        }),
        ({
            let r = folder_step(f, id, own, peers, now, EventView::ScanFinished { folder: id });
            &&& f.scan is None ==> r.folder == f && r.actions == seq![
                ActionView::StatusChanged { folder: id, status: StatusView::ScanNotOpen },
            ]
            &&& f.scan is Some ==> r.folder == f.scan_finished(now)
        }),
        ({
            let r = folder_step(
                f,
                id,
                own,
                peers,
                now,
                EventView::RulesChanged { folder: id, rules },
            );
            &&& r.folder == f.ruled(rules)
            &&& r.actions.len() == f.ruled_result(rules).len()
            &&& forall|i: int|
                0 <= i < r.actions.len() ==> #[trigger] r.actions[i] == (
                ActionView::StatusChanged { folder: id, status: f.ruled_result(rules)[i] })
        }),
        ({
            let r = folder_step(
                f,
                id,
                own,
                peers,
                now,
                EventView::WantRestored { folder: id, want },
            );
            &&& r.actions.len() == 0
            &&& r.folder == (FolderView { wants: f.wants.restored(want), ..f })
        }),
        ({
            let r = folder_step(
                f,
                id,
                own,
                peers,
                now,
                EventView::FetchProgress { folder: id, path, hash, version },
            );
            &&& r.actions.len() == 0
            &&& r.folder == (FolderView { wants: f.wants.progressed(now, path, version), ..f })
        }),
{
}

// ---- the engine -------------------------------------------------------------

/// A folder's event reaches the folder that it names: what it does there is what it does to that
/// folder alone, with the peers that are connected.
pub proof fn law_event_reaches_its_folder(
    s: EngineView,
    now: Timestamp,
    event: EventView,
    id: FolderId,
)
    requires
        s.folders.contains_key(id),
        match event {
            EventView::RulesChanged { folder, rules } => folder == id,
            EventView::Scanned { folder, path, state } => folder == id,
            EventView::ScanStarted { folder } => folder == id,
            EventView::ScanFinished { folder } => folder == id,
            EventView::ScanAborted { folder } => folder == id,
            EventView::BatchReceived { from, batch } => batch.folder == id,
            EventView::DecisionReceived { from, decision } => decision.folder == id,
            EventView::HaveUpToReceived { from, folder, seq } => folder == id,
            EventView::Fetched { folder, path, hash, version, outcome } => folder == id,
            EventView::FetchProgress { folder, path, hash, version } => folder == id,
            EventView::WantRestored { folder, want } => folder == id,
            EventView::Applied { folder, path, version, outcome } => folder == id,
            EventView::Approve { folder, batch } => folder == id,
            EventView::Deny { folder, batch } => folder == id,
            EventView::Revert { folder } => folder == id,
            _ => false,
        },
    ensures
        event.folder() == Some(id),
        ({
            let t = s.taken_in(now, event);
            let r = folder_step(s.folders[id], id, s.node_id, s.peers, now, event);
            &&& t.engine.folders == s.folders.insert(id, r.folder)
            &&& t.actions == r.actions
            &&& t.engine.woke == s.woke
        }),
        match event {
            EventView::Scanned { folder, path, state } => s.taken_in(
                now,
                event,
            ).engine.folders[id] == s.folders[id].scanned(now, path, state),
            EventView::ScanFinished { folder } => s.taken_in(now, event).engine.folders[id]
                == s.folders[id].scan_finished(now),
            EventView::BatchReceived { from, batch } => s.taken_in(
                now,
                event,
            ).engine.folders[id] == s.folders[id].received(now, batch).folder,
            EventView::Fetched { folder, path, hash, version, outcome } => s.taken_in(
                now,
                event,
            ).engine.folders[id] == s.folders[id].fetched(now, path, version, outcome),
            EventView::Applied { folder, path, version, outcome } => s.taken_in(
                now,
                event,
            ).engine.folders[id] == s.folders[id].applied(now, path, version, outcome).folder,
            EventView::Approve { folder, batch } => s.taken_in(now, event).engine.folders[id]
                == s.folders[id].approve(now, batch).folder,
            EventView::Revert { folder } => s.taken_in(now, event).engine.folders[id]
                == s.folders[id].reverted(now),
            _ => true,
        },
{
}

/// A peer that connects is told, for every folder that it is a member of and for no other, once
/// and in the order of folders, how far its records are held here without a gap.
pub proof fn law_greetings(
    folders: Map<FolderId, FolderView>,
    ks: Seq<FolderId>,
    peer: NodeId,
)
    requires
        increasing(ks),
    ensures
        ({
            let g = greetings(folders, ks, peer);
            &&& forall|id: FolderId|
                ks.contains(id) && (#[trigger] folders[id]).members.contains(peer) ==> g.contains(
                    ActionView::Send {
                        to: peer,
                        payload: OutboundView::HaveUpTo {
                            folder: id,
                            seq: folders[id].index.watermark(peer).contiguous,
                        },
                    },
                )
            &&& forall|i: int|
                0 <= i < g.len() ==> (#[trigger] g[i]) is Send && g[i]->Send_to == peer
                    && g[i]->payload is HaveUpTo && ks.contains(g[i]->payload->HaveUpTo_folder)
                    && folders[g[i]->payload->HaveUpTo_folder].members.contains(peer)
            &&& forall|i: int, j: int|
                0 <= i < j < g.len() ==> (
                #[trigger] g[i])->payload->HaveUpTo_folder.before(
                    (#[trigger] g[j])->payload->HaveUpTo_folder,
                )
        }),
    decreases ks.len(),
{
    if ks.len() > 0 {
        let t = ks.drop_last();
        let z = ks.len() - 1;
        let k = ks.last();
        assert(ks[z] == k);
        law_greetings(folders, t, peer);
        let a = greetings(folders, t, peer);
        let g = greetings(folders, ks, peer);
        assert forall|id: FolderId|
            ks.contains(id) && (#[trigger] folders[id]).members.contains(peer) implies g.contains(
            ActionView::Send {
                to: peer,
                payload: OutboundView::HaveUpTo {
                    folder: id,
                    seq: folders[id].index.watermark(peer).contiguous,
                },
            },
        ) by {
            let x = ActionView::Send {
                to: peer,
                payload: OutboundView::HaveUpTo {
                    folder: id,
                    seq: folders[id].index.watermark(peer).contiguous,
                },
            };
            if id == k {
                assert(g[g.len() - 1] == x);
            } else {
                let i = choose|i: int| 0 <= i < ks.len() && ks[i] == id;
                assert(t[i] == id);
                assert(a.contains(x));
                let j = choose|j: int| 0 <= j < a.len() && a[j] == x;
                assert(g[j] == x);
            }
        }
        assert forall|i: int| 0 <= i < g.len() implies (#[trigger] g[i]) is Send && g[i]->Send_to
            == peer && g[i]->payload is HaveUpTo && ks.contains(g[i]->payload->HaveUpTo_folder)
            && folders[g[i]->payload->HaveUpTo_folder].members.contains(peer) by {
            if i < a.len() {
                assert(g[i] == a[i]);
                let id = a[i]->payload->HaveUpTo_folder;
                let j = choose|j: int| 0 <= j < t.len() && t[j] == id;
                assert(ks[j] == id);
            }
        }
        assert forall|i: int, j: int| 0 <= i < j < g.len() implies (
        #[trigger] g[i])->payload->HaveUpTo_folder.before(
            (#[trigger] g[j])->payload->HaveUpTo_folder,
        ) by {
            assert(g[i] == a[i]);
            if j < a.len() {
                assert(g[j] == a[j]);
            } else {
                let id = a[i]->payload->HaveUpTo_folder;
                let l = choose|l: int| 0 <= l < t.len() && t[l] == id;
                assert(ks[l].before(ks[z]));
            }
        }
    }
}

/// Connecting greets the peer, and nothing else is asked for by the event itself; the folders stay
/// as they are.
pub proof fn law_connecting_greets(s: EngineView, now: Timestamp, peer: NodeId, tier: Tier)
    ensures
        ({
            let t = s.taken_in(now, EventView::PeerConnected { peer, tier });
            &&& t.actions == greetings(s.folders, s.ids(), peer)
            &&& t.engine.folders == s.folders
            &&& t.engine.woke == s.woke
        }),
        ({
            let t = s.taken_in(now, EventView::PeerTierChanged { peer, tier });
            &&& t.actions.len() == 0
            &&& t.engine.folders == s.folders
            &&& t.engine.woke == s.woke
        }),
        ({
            let t = s.taken_in(now, EventView::PeerDisconnected { peer });
            &&& t.actions.len() == 0
            &&& t.engine.folders.dom() =~= s.folders.dom()
            &&& t.engine.woke == s.woke
        }),
{
}

/// Whether a wake-up is one that a folder needs and that was not asked for before.
pub open spec fn needed_wake(s: EngineStep, id: FolderId, at: Timestamp) -> bool {
    let f = s.engine.folders[id];
    if f.catchup != Set::<NodeId>::empty() {
        at == s.engine.now_hint
    } else {
        f.due() == Some(at) && !(s.engine.woke.contains_key(id) && s.engine.woke[id] == at)
    }
}

/// A wake-up is asked for only where a folder needs it and it was not asked for before: none is
/// asked for twice.
pub proof fn law_wake_ups_are_asked_for_once(s: EngineStep, ks: Seq<FolderId>, i: int)
    requires
        ks.no_duplicates(),
        s.actions.len() <= i < s.schedule_all(ks).actions.len(),
    ensures
        s.schedule_all(ks).actions[i] is WakeAt,
        exists|j: int|
            0 <= j < ks.len() && needed_wake(
                s,
                #[trigger] ks[j],
                s.schedule_all(ks).actions[i]->WakeAt_0,
            ),
        s.schedule_all(ks).actions.len() <= s.actions.len() + ks.len(),
    decreases ks.len(),
{
    if ks.len() > 0 {
        let t = ks.drop_last();
        let z = ks.len() - 1;
        let m = s.schedule_all(t);
        let r = s.schedule_all(ks);
        assert(ks[z] == ks.last());
        lemma_schedule_all(s, t);
        lemma_scheduled(s, t, ks.last());
        lemma_schedule_len(s, t);
        assert(!t.contains(ks.last())) by {
            if t.contains(ks.last()) {
                let a = choose|a: int| 0 <= a < t.len() && t[a] == ks.last();
                assert(ks[a] == ks[z]);
            }
        }
        if i < m.actions.len() {
            assert(r.actions[i] == m.actions[i]);
            law_wake_ups_are_asked_for_once(s, t, i);
            let j = choose|j: int|
                0 <= j < t.len() && needed_wake(s, #[trigger] t[j], m.actions[i]->WakeAt_0);
            assert(ks[j] == t[j]);
        } else {
            assert(needed_wake(s, ks[z], r.actions[i]->WakeAt_0));
        }
    }
}

proof fn lemma_schedule_len(s: EngineStep, ks: Seq<FolderId>)
    ensures
        s.schedule_all(ks).actions.len() <= s.actions.len() + ks.len(),
        s.actions.len() <= s.schedule_all(ks).actions.len(),
    decreases ks.len(),
{
    if ks.len() > 0 {
        lemma_schedule_len(s, ks.drop_last());
    }
}

proof fn lemma_scheduled(s: EngineStep, ks: Seq<FolderId>, id: FolderId)
    ensures
        !ks.contains(id) ==> s.schedule_all(ks).engine.woke.contains_key(id)
            == s.engine.woke.contains_key(id) && s.schedule_all(ks).engine.woke[id]
            == s.engine.woke[id],
    decreases ks.len(),
{
    if ks.len() > 0 {
        let t = ks.drop_last();
        lemma_scheduled(s, t, id);
        if !ks.contains(id) {
            assert(ks[ks.len() - 1] != id);
            if t.contains(id) {
                let a = choose|a: int| 0 <= a < t.len() && t[a] == id;
                assert(ks[a] == id);
            }
        }
    }
}

} // verus!
