//! What an event reports: the changes of every index, so that a copy of it kept by the host stays
//! equal to it, and nothing about folders that do not exist.

use crate::engine_view::{
    approved_actions, catchup_actions, change_actions, fetched_actions, folder_step, greetings,
    paused_actions, plus_used, receive_actions, recipients, record_actions, revert_actions,
    reverted_actions, scanned_actions, send_actions, sent_actions, stalled_actions, status_action,
    status_actions, step_actions, trash_actions, want_actions, ActionView, EngineStep, EngineView,
    EventView, FoldersStep, OutboundView, TickStep,
};
use crate::batch::BatchView;
use crate::entry::EntryView;
use crate::folder::{ApplyOutcome, DeferredReason, ScanState};
use crate::folder_view::{FolderView, StatusView, TickedView, WithChanges, WithSteps};
use crate::id::{BatchId, FolderId, NodeId};
use crate::index::{next_number, ChangeView, IndexView, RecordView, RevertedView};
use crate::laws::engine::{lemma_ids, lemma_schedule_all, lemma_taken_in};
use crate::laws::folder::{
    law_approval_sends, law_deriving_anew_writes_nothing, law_receiving_writes_nothing,
    law_release_writes_nothing, law_revert_puts_back, lemma_reclassified_all,
    lemma_reconsidered_all,
};
use crate::laws::index::{law_revert_restores, numbered};
use crate::order::{in_order, lemma_order_facts};
use crate::quarantine::{max_stamp, versions_in};
use crate::time::Timestamp;
use crate::version::Vector;
use crate::want::{distinct, overdue_among, Tier, WantListView, WantState, WantStepView};
use vstd::prelude::*;

verus! {

// ---- a copy of the index ----------------------------------------------------

/// Whether an action reports on the record at a path of a folder.
pub open spec fn reports(a: ActionView, id: FolderId, p: Seq<u8>) -> bool {
    match a {
        ActionView::IndexChanged { folder, record } => folder == id && record.entry.path == p,
        ActionView::IndexRemoved { folder, path } => folder == id && path == p,
        _ => false,
    }
}

/// What a copy of the index holds at a path once it was told what some actions report.
pub open spec fn mirrored(
    acts: Seq<ActionView>,
    id: FolderId,
    p: Seq<u8>,
    before: Option<RecordView>,
) -> Option<RecordView>
    decreases acts.len(),
{
    if acts.len() == 0 {
        before
    } else {
        match acts.last() {
            ActionView::IndexChanged { folder, record } => if folder == id && record.entry.path
                == p {
                Some(record)
            } else {
                mirrored(acts.drop_last(), id, p, before)
            },
            ActionView::IndexRemoved { folder, path } => if folder == id && path == p {
                None
            } else {
                mirrored(acts.drop_last(), id, p, before)
            },
            _ => mirrored(acts.drop_last(), id, p, before),
        }
    }
}

proof fn lemma_mirrored_concat(
    a: Seq<ActionView>,
    b: Seq<ActionView>,
    id: FolderId,
    p: Seq<u8>,
    before: Option<RecordView>,
)
    ensures
        mirrored(a + b, id, p, before) == mirrored(b, id, p, mirrored(a, id, p, before)),
    decreases b.len(),
{
    if b.len() == 0 {
        assert(a + b =~= a);
    } else {
        assert((a + b).drop_last() =~= a + b.drop_last());
        assert((a + b).last() == b.last());
        lemma_mirrored_concat(a, b.drop_last(), id, p, before);
    }
}

proof fn lemma_mirrored_silent(
    acts: Seq<ActionView>,
    id: FolderId,
    p: Seq<u8>,
    before: Option<RecordView>,
)
    requires
        forall|i: int| 0 <= i < acts.len() ==> !reports(#[trigger] acts[i], id, p),
    ensures
        mirrored(acts, id, p, before) == before,
    decreases acts.len(),
{
    if acts.len() > 0 {
        let t = acts.drop_last();
        assert forall|i: int| 0 <= i < t.len() implies !reports(#[trigger] t[i], id, p) by {
            assert(t[i] == acts[i]);
        }
        lemma_mirrored_silent(t, id, p, before);
        assert(!reports(acts[acts.len() - 1], id, p));
    }
}

/// Whether an action reports on no index.
spec fn quiet(a: ActionView) -> bool {
    !(a is IndexChanged) && !(a is IndexRemoved)
}

spec fn all_quiet(acts: Seq<ActionView>) -> bool {
    forall|i: int| 0 <= i < acts.len() ==> quiet(#[trigger] acts[i])
}

/// Whether some actions report on no folder but one.
spec fn only_about(acts: Seq<ActionView>, id: FolderId) -> bool {
    forall|i: int| 0 <= i < acts.len() ==> match #[trigger] acts[i] {
        ActionView::IndexChanged { folder, record } => folder == id,
        ActionView::IndexRemoved { folder, path } => folder == id,
        _ => true,
    }
}

/// Whether some actions report how the index of a folder changed: a copy that is told them is what
/// the index is.
pub open spec fn tells(acts: Seq<ActionView>, id: FolderId, f: IndexView, g: IndexView) -> bool {
    forall|p: Seq<u8>| mirrored(acts, id, p, f.get(p)) == #[trigger] g.get(p)
}

/// Whether some actions report how the index of a folder changed, by writing alone: every report
/// carries a sequence number above those that were there, while the counter lasts.
#[verifier::opaque]
spec fn told(acts: Seq<ActionView>, id: FolderId, f: IndexView, g: IndexView) -> bool {
    &&& tells(acts, id, f, g)
    &&& only_about(acts, id)
    &&& f.seq <= g.seq
    &&& forall|i: int| 0 <= i < acts.len() ==> !((#[trigger] acts[i]) is IndexRemoved)
    &&& g.seq < u64::MAX ==> forall|i: int|
        0 <= i < acts.len() && (#[trigger] acts[i]) is IndexChanged
            ==> acts[i]->IndexChanged_record.seq > f.seq
}

proof fn lemma_quiet_told(acts: Seq<ActionView>, id: FolderId, f: IndexView, g: IndexView)
    requires
        all_quiet(acts),
        g.records == f.records,
        f.seq <= g.seq,
    ensures
        told(acts, id, f, g),
{
    reveal(told);
    assert forall|p: Seq<u8>| mirrored(acts, id, p, f.get(p)) == #[trigger] g.get(p) by {
        assert forall|i: int| 0 <= i < acts.len() implies !reports(#[trigger] acts[i], id, p) by {
            assert(quiet(acts[i]));
        }
        lemma_mirrored_silent(acts, id, p, f.get(p));
    }
    assert forall|i: int| 0 <= i < acts.len() implies match #[trigger] acts[i] {
        ActionView::IndexChanged { folder, record } => folder == id,
        ActionView::IndexRemoved { folder, path } => folder == id,
        _ => true,
    } by {
        assert(quiet(acts[i]));
    }
    assert forall|i: int| 0 <= i < acts.len() implies !((#[trigger] acts[i]) is IndexRemoved)
        && !(acts[i] is IndexChanged) by {
        assert(quiet(acts[i]));
    }
}

proof fn lemma_tells_concat(
    a: Seq<ActionView>,
    b: Seq<ActionView>,
    id: FolderId,
    f: IndexView,
    g: IndexView,
    h: IndexView,
)
    requires
        tells(a, id, f, g),
        tells(b, id, g, h),
    ensures
        tells(a + b, id, f, h),
{
    assert forall|p: Seq<u8>| mirrored(a + b, id, p, f.get(p)) == #[trigger] h.get(p) by {
        lemma_mirrored_concat(a, b, id, p, f.get(p));
        assert(mirrored(a, id, p, f.get(p)) == g.get(p));
    }
}

proof fn lemma_told_concat(
    a: Seq<ActionView>,
    b: Seq<ActionView>,
    id: FolderId,
    f: IndexView,
    g: IndexView,
    h: IndexView,
)
    requires
        told(a, id, f, g),
        told(b, id, g, h),
    ensures
        told(a + b, id, f, h),
{
    reveal(told);
    lemma_tells_concat(a, b, id, f, g, h);
    let c = a + b;
    assert forall|i: int| 0 <= i < c.len() implies if i < a.len() {
        (#[trigger] c[i]) == a[i]
    } else {
        c[i] == b[i - a.len()]
    } by {}
    assert forall|i: int| 0 <= i < c.len() implies !((#[trigger] c[i]) is IndexRemoved) by {
        if i < a.len() {
            assert(!(a[i] is IndexRemoved));
        } else {
            assert(!(b[i - a.len()] is IndexRemoved));
        }
    }
    assert(only_about(c, id)) by {
        assert forall|i: int| 0 <= i < c.len() implies match #[trigger] c[i] {
            ActionView::IndexChanged { folder, record } => folder == id,
            ActionView::IndexRemoved { folder, path } => folder == id,
            _ => true,
        } by {
            if i < a.len() {
                assert(a[i] == c[i]);
            } else {
                assert(b[i - a.len()] == c[i]);
            }
        }
    }
    if h.seq < u64::MAX {
        assert forall|i: int| 0 <= i < c.len() && (#[trigger] c[i]) is IndexChanged implies
            c[i]->IndexChanged_record.seq > f.seq by {
            if i < a.len() {
                assert(a[i] is IndexChanged);
            } else {
                assert(b[i - a.len()] is IndexChanged);
            }
        }
    }
}

/// One record put in place is told by one report.
proof fn lemma_one_told(id: FolderId, f: IndexView, g: IndexView, e: EntryView)
    requires
        g.records == f.records.insert(
            e.path,
            RecordView { entry: e, seq: next_number(f.seq) },
        ),
        g.seq == next_number(f.seq),
    ensures
        told(
            seq![
                ActionView::IndexChanged {
                    folder: id,
                    record: RecordView { entry: e, seq: next_number(f.seq) },
                },
            ],
            id,
            f,
            g,
        ),
{
    let a = ActionView::IndexChanged {
        folder: id,
        record: RecordView { entry: e, seq: next_number(f.seq) },
    };
    reveal(told);
    let acts = seq![a];
    assert(acts.drop_last() =~= Seq::empty());
    assert(acts.last() == a);
    assert forall|p: Seq<u8>| mirrored(acts, id, p, f.get(p)) == #[trigger] g.get(p) by {
        assert(mirrored(acts.drop_last(), id, p, f.get(p)) == f.get(p));
    }
}

// ---- one folder -------------------------------------------------------------

proof fn lemma_change_push(id: FolderId, l: Seq<ChangeView>, c: ChangeView)
    ensures
        change_actions(id, l.push(c)) == change_actions(id, l) + seq![
            ActionView::IndexChanged { folder: id, record: c.record },
        ],
{
    assert(change_actions(id, l.push(c)) =~= change_actions(id, l) + seq![
        ActionView::IndexChanged { folder: id, record: c.record },
    ]);
}

proof fn lemma_record_push(id: FolderId, l: Seq<RecordView>, r: RecordView)
    ensures
        record_actions(id, l.push(r)) == record_actions(id, l) + seq![
            ActionView::IndexChanged { folder: id, record: r },
        ],
{
    assert(record_actions(id, l.push(r)) =~= record_actions(id, l) + seq![
        ActionView::IndexChanged { folder: id, record: r },
    ]);
}

proof fn lemma_scan_told(
    f: FolderView,
    id: FolderId,
    now: Timestamp,
    path: Seq<u8>,
    state: ScanState,
)
    ensures
        told(
            scanned_actions(f, id, now, path, state),
            id,
            f.index,
            f.scanned(now, path, state).index,
        ),
{
    let g = f.scanned(now, path, state);
    let r = f.scan_result(now, path, state);
    lemma_scanned_index(f, now, path, state);
    let a = match r.change {
        Some(c) => seq![ActionView::IndexChanged { folder: id, record: c.record }],
        None => Seq::empty(),
    };
    let b = (match r.status {
        Some(s) => seq![status_action(id, s)],
        None => Seq::empty(),
    });
    let c = (if g.winner_fallbacks > f.winner_fallbacks {
        seq![status_action(id, StatusView::WinnerFallback { count: g.winner_fallbacks })]
    } else {
        Seq::empty()
    });
    match r.change {
        Some(x) => {
            lemma_one_told(id, f.index, g.index, x.record.entry);
        },
        None => {
            lemma_quiet_told(a, id, f.index, g.index);
        },
    }
    lemma_quiet_told(b, id, g.index, g.index);
    lemma_quiet_told(c, id, g.index, g.index);
    lemma_told_concat(a, b, id, f.index, g.index, g.index);
    lemma_told_concat(a + b, c, id, f.index, g.index, g.index);
}

/// What a scan report writes.
proof fn lemma_scanned_index(f: FolderView, now: Timestamp, path: Seq<u8>, state: ScanState)
    ensures
        match f.scan_result(now, path, state).change {
            Some(c) => {
                let g = f.scanned(now, path, state).index;
                &&& c.record.seq == next_number(f.index.seq)
                &&& g.records == f.index.records.insert(c.record.entry.path, c.record)
                &&& g.seq == next_number(f.index.seq)
            },
            None => f.scanned(now, path, state).index == f.index,
        },
{
    let s = f.seen(path);
    if !(f.ignores(path, state) || (state is Unchanged && f.index.live(path) is None)) {
        let t = FolderView { index: f.scan_index(now, path, state), ..s };
        law_deriving_anew_writes_nothing(
            t.touched(now),
            now,
            path,
            DeferredReason::ChangedUnderneath,
        );
        let u = if f.scan_change(now, path, state) is Some {
            t.touched(now).reclassified(now, path)
        } else {
            t
        };
        law_deriving_anew_writes_nothing(u, now, path, DeferredReason::ChangedUnderneath);
    }
}

proof fn lemma_vanished_told(id: FolderId, w: WithChanges, now: Timestamp, ps: Seq<Seq<u8>>)
    requires
        w.changes.len() == 0,
    ensures
        told(
            change_actions(id, w.vanished_all(now, ps).changes),
            id,
            w.folder.index,
            w.vanished_all(now, ps).folder.index,
        ),
    decreases ps.len(),
{
    if ps.len() == 0 {
        lemma_quiet_told(
            change_actions(id, w.changes),
            id,
            w.folder.index,
            w.folder.index,
        );
    } else {
        let p = ps.last();
        lemma_vanished_told(id, w, now, ps.drop_last());
        let b = w.vanished_all(now, ps.drop_last());
        let r = w.vanished_all(now, ps);
        let s = b.folder;
        let t = FolderView { index: s.index.observe_absent(p, now.0), ..s };
        law_deriving_anew_writes_nothing(t, now, p, DeferredReason::ChangedUnderneath);
        law_deriving_anew_writes_nothing(
            t.reclassified(now, p),
            now,
            p,
            DeferredReason::ChangedUnderneath,
        );
        law_deriving_anew_writes_nothing(s, now, p, DeferredReason::ChangedUnderneath);
        match s.index.absent_change(p, now.0) {
            Some(c) => {
                lemma_one_told(id, s.index, r.folder.index, s.index.tombstone(p, now.0));
                lemma_change_push(id, b.changes, c);
                lemma_told_concat(
                    change_actions(id, b.changes),
                    seq![ActionView::IndexChanged { folder: id, record: c.record }],
                    id,
                    w.folder.index,
                    s.index,
                    r.folder.index,
                );
            },
            None => {},
        }
    }
}

proof fn lemma_bumped_told(id: FolderId, w: WithChanges, now: Timestamp, ps: Seq<Seq<u8>>)
    requires
        w.changes.len() == 0,
    ensures
        told(
            change_actions(id, w.bumped_all(now, ps).changes),
            id,
            w.folder.index,
            w.bumped_all(now, ps).folder.index,
        ),
    decreases ps.len(),
{
    if ps.len() == 0 {
        lemma_quiet_told(
            change_actions(id, w.changes),
            id,
            w.folder.index,
            w.folder.index,
        );
    } else {
        let p = ps.last();
        lemma_bumped_told(id, w, now, ps.drop_last());
        let b = w.bumped_all(now, ps.drop_last());
        let r = w.bumped_all(now, ps);
        let s = b.folder;
        let list = s.quarantine.list(p);
        let e = s.index.bumped_entry(p, versions_in(list), max_stamp(list), now.0);
        lemma_one_told(id, s.index, r.folder.index, e);
        lemma_change_push(id, b.changes, s.index.change(e));
        lemma_told_concat(
            change_actions(id, b.changes),
            seq![ActionView::IndexChanged { folder: id, record: s.index.change(e).record }],
            id,
            w.folder.index,
            s.index,
            r.folder.index,
        );
    }
}

proof fn lemma_applied_told(
    f: FolderView,
    id: FolderId,
    now: Timestamp,
    path: Seq<u8>,
    version: Vector,
    outcome: ApplyOutcome,
)
    ensures
        told(
            record_actions(id, f.applied(now, path, version, outcome).records),
            id,
            f.index,
            f.applied(now, path, version, outcome).folder.index,
        ),
{
    let r = f.applied(now, path, version, outcome);
    let none = Seq::<RecordView>::empty();
    lemma_quiet_told(record_actions(id, none), id, f.index, f.index);
    if f.wants.wants_version(path, version) {
        let w = f.wants.wants[path];
        let s = FolderView { wants: f.wants.removed(path), ..f };
        if !(outcome == ApplyOutcome::ChangedUnderneath || !s.index.adoptable(w.entry)) {
            let t = s.adopting(now, w.entry);
            let record = RecordView { entry: w.entry, seq: next_number(s.index.seq) };
            lemma_one_told(id, f.index, t.index, w.entry);
            lemma_record_push(id, none, record);
            assert(none.push(record) =~= seq![record]);
            lemma_told_concat(
                record_actions(id, none),
                seq![ActionView::IndexChanged { folder: id, record }],
                id,
                f.index,
                f.index,
                t.index,
            );
            law_deriving_anew_writes_nothing(t, now, path, DeferredReason::ChangedUnderneath);
            if w.conflict is Some {
                let copy = w.conflict->0;
                let e = t.index.copy_entry(copy.path, copy.loser);
                let u = FolderView { index: t.index.written(e), ..t }.touched(now);
                law_deriving_anew_writes_nothing(
                    u,
                    now,
                    copy.path,
                    DeferredReason::ChangedUnderneath,
                );
                law_deriving_anew_writes_nothing(
                    u.reclassified(now, copy.path),
                    now,
                    path,
                    DeferredReason::ChangedUnderneath,
                );
                let second = t.index.change(e).record;
                lemma_one_told(id, t.index, u.index, e);
                lemma_record_push(id, seq![record], second);
                assert(seq![record].push(second) =~= seq![record, second]);
                lemma_told_concat(
                    record_actions(id, seq![record]),
                    seq![ActionView::IndexChanged { folder: id, record: second }],
                    id,
                    f.index,
                    t.index,
                    u.index,
                );
            }
        }
    }
}

proof fn lemma_taken_told(id: FolderId, w: WithSteps, now: Timestamp, steps: Seq<WantStepView>)
    requires
        w.adopted.len() == 0,
    ensures
        told(
            record_actions(id, w.take_all(now, steps).adopted),
            id,
            w.folder.index,
            w.take_all(now, steps).folder.index,
        ),
    decreases steps.len(),
{
    if steps.len() == 0 {
        lemma_quiet_told(
            record_actions(id, w.adopted),
            id,
            w.folder.index,
            w.folder.index,
        );
    } else {
        lemma_taken_told(id, w, now, steps.drop_last());
        let b = w.take_all(now, steps.drop_last());
        let r = w.take_all(now, steps);
        let s = b.folder;
        match steps.last() {
            WantStepView::Adopt(x) => {
                law_deriving_anew_writes_nothing(
                    s.adopting(now, x.entry),
                    now,
                    x.entry.path,
                    DeferredReason::ChangedUnderneath,
                );
                law_deriving_anew_writes_nothing(
                    s.postponing(x),
                    now,
                    x.entry.path,
                    DeferredReason::ChangedUnderneath,
                );
                if s.index.adoptable(x.entry) {
                    let record = RecordView { entry: x.entry, seq: next_number(s.index.seq) };
                    lemma_one_told(id, s.index, r.folder.index, x.entry);
                    lemma_record_push(id, b.adopted, record);
                    lemma_told_concat(
                        record_actions(id, b.adopted),
                        seq![ActionView::IndexChanged { folder: id, record }],
                        id,
                        w.folder.index,
                        s.index,
                        r.folder.index,
                    );
                }
            },
            _ => {},
        }
    }
}

proof fn lemma_sent_quiet(batches: Seq<BatchView>, to: Seq<NodeId>)
    ensures
        all_quiet(sent_actions(batches, to)),
    decreases batches.len(),
{
    if batches.len() > 0 {
        lemma_sent_quiet(batches.drop_last(), to);
        let a = sent_actions(batches.drop_last(), to);
        let b = send_actions(batches.last(), to);
        let c = sent_actions(batches, to);
        assert forall|i: int| 0 <= i < c.len() implies quiet(#[trigger] c[i]) by {
            if i < a.len() {
                assert(c[i] == a[i]);
            } else if i < a.len() + b.len() {
                assert(c[i] == b[i - a.len()]);
            }
        }
    }
}

proof fn lemma_catchup_quiet(l: Seq<(NodeId, Seq<BatchView>)>)
    ensures
        all_quiet(catchup_actions(l)),
    decreases l.len(),
{
    if l.len() > 0 {
        lemma_catchup_quiet(l.drop_last());
        lemma_sent_quiet(l.last().1, seq![l.last().0]);
        let a = catchup_actions(l.drop_last());
        let b = sent_actions(l.last().1, seq![l.last().0]);
        let c = catchup_actions(l);
        assert forall|i: int| 0 <= i < c.len() implies quiet(#[trigger] c[i]) by {
            if i < a.len() {
                assert(c[i] == a[i]);
            } else {
                assert(c[i] == b[i - a.len()]);
            }
        }
    }
}

proof fn lemma_greetings_quiet(
    folders: Map<FolderId, FolderView>,
    ks: Seq<FolderId>,
    peer: NodeId,
)
    ensures
        all_quiet(greetings(folders, ks, peer)),
    decreases ks.len(),
{
    if ks.len() > 0 {
        lemma_greetings_quiet(folders, ks.drop_last(), peer);
        let a = greetings(folders, ks.drop_last(), peer);
        let c = greetings(folders, ks, peer);
        assert forall|i: int| 0 <= i < c.len() implies quiet(#[trigger] c[i]) by {
            if i < a.len() {
                assert(c[i] == a[i]);
            }
        }
    }
}

proof fn lemma_scan_end_told(f: FolderView, id: FolderId, now: Timestamp)
    requires
        f.scan is Some,
    ensures
        told(
            change_actions(id, f.scan_swept(now, f.scan->0).changes),
            id,
            f.index,
            f.scan_finished(now).index,
        ),
{
    let seen = f.scan->0;
    let s = FolderView { scan: None, ..f };
    let w0 = WithChanges { folder: s, changes: Seq::empty() };
    let gone = s.gone_among(crate::index::live_among(s.index.records, s.index.paths()), seen);
    lemma_vanished_told(id, w0, now, gone);
    let t = f.scan_swept(now, seen).folder;
    lemma_reconsidered_all(t, now, t.unseen_among(in_order(t.deferred.dom()), seen));
}

proof fn lemma_receive_told(
    f: FolderView,
    id: FolderId,
    now: Timestamp,
    from: NodeId,
    batch: BatchView,
)
    ensures
        told(
            receive_actions(f, now, from, batch),
            id,
            f.index,
            f.received(now, batch).folder.index,
        ),
{
    law_receiving_writes_nothing(f, now, batch);
    assert(all_quiet(receive_actions(f, now, from, batch)));
    lemma_quiet_told(
        receive_actions(f, now, from, batch),
        id,
        f.index,
        f.received(now, batch).folder.index,
    );
}

proof fn lemma_approve_told(
    f: FolderView,
    id: FolderId,
    own: NodeId,
    peers: Map<NodeId, Tier>,
    now: Timestamp,
    batch: BatchId,
)
    ensures
        told(
            approved_actions(f, id, own, peers, now, batch),
            id,
            f.index,
            f.approve(now, batch).folder.index,
        ),
{
    let g = f.approve(now, batch).folder;
    if f.quarantine.items.contains_key(batch) {
        law_release_writes_nothing(f, now, batch);
    } else if f.paused is Some && (f.paused->0).batch == batch {
        law_approval_sends(f, now, batch);
        lemma_sent_quiet(f.fresh_batches(now, batch), recipients(g, own, peers));
    }
    assert(all_quiet(approved_actions(f, id, own, peers, now, batch)));
    lemma_quiet_told(approved_actions(f, id, own, peers, now, batch), id, f.index, g.index);
}

proof fn lemma_denial_told(f: FolderView, id: FolderId, now: Timestamp, batch: BatchId)
    ensures
        told(
            change_actions(id, f.denial(now, batch).changes).push(
                status_action(
                    id,
                    StatusView::Denied { batch, paths: f.denial(now, batch).changes.len() },
                ),
            ),
            id,
            f.index,
            f.denial(now, batch).folder.index,
        ),
{
    let g = f.denial(now, batch).folder;
    let ps = in_order(f.quarantine.items[batch].entries.dom());
    let w0 = WithChanges { folder: f, changes: Seq::empty() };
    lemma_bumped_told(id, w0, now, ps);
    let w = w0.bumped_all(now, ps);
    let s = FolderView { quarantine: w.folder.quarantine.denial(batch), ..w.folder };
    let t = if ps.len() > 0 {
        s.touched(now)
    } else {
        s
    };
    lemma_reclassified_all(t, now, ps);
    let status = status_action(
        id,
        StatusView::Denied { batch, paths: f.denial(now, batch).changes.len() },
    );
    lemma_quiet_told(seq![status], id, g.index, g.index);
    lemma_told_concat(
        change_actions(id, w.changes),
        seq![status],
        id,
        f.index,
        g.index,
        g.index,
    );
    assert(change_actions(id, w.changes).push(status) =~= change_actions(id, w.changes) + seq![
        status,
    ]);
}

/// Every event but a revert reports what it writes to the index of its folder, by writing alone.
proof fn lemma_step_told(
    f: FolderView,
    id: FolderId,
    own: NodeId,
    peers: Map<NodeId, Tier>,
    now: Timestamp,
    event: EventView,
)
    requires
        !(event is Revert),
    ensures
        told(
            folder_step(f, id, own, peers, now, event).actions,
            id,
            f.index,
            folder_step(f, id, own, peers, now, event).folder.index,
        ),
{
    let r = folder_step(f, id, own, peers, now, event);
    match event {
        EventView::Scanned { folder, path, state } => {
            lemma_scan_told(f, id, now, path, state);
        },
        EventView::ScanFinished { folder } => {
            if f.scan is Some {
                lemma_scan_end_told(f, id, now);
            } else {
                lemma_quiet_told(r.actions, id, f.index, r.folder.index);
            }
        },
        EventView::BatchReceived { from, batch } => {
            lemma_receive_told(f, id, now, from, batch);
        },
        EventView::Fetched { folder, path, hash, version, outcome } => {
            lemma_fetch_told(f, id, now, path, version, outcome);
        },
        EventView::Applied { folder, path, version, outcome } => {
            lemma_applied_told(f, id, now, path, version, outcome);
        },
        EventView::Approve { folder, batch } => {
            lemma_approve_told(f, id, own, peers, now, batch);
        },
        EventView::Deny { folder, batch } => {
            lemma_denial_told(f, id, now, batch);
            if !f.quarantine.items.contains_key(batch) {
                lemma_quiet_told(r.actions, id, f.index, r.folder.index);
            }
        },
        _ => {
            lemma_quiet_told(r.actions, id, f.index, r.folder.index);
        },
    }
}

proof fn lemma_fetch_told(
    f: FolderView,
    id: FolderId,
    now: Timestamp,
    path: Seq<u8>,
    version: Vector,
    outcome: crate::want::FetchReport,
)
    ensures
        told(
            fetched_actions(f, id, now, path, version, outcome),
            id,
            f.index,
            f.fetched(now, path, version, outcome).index,
        ),
{
    let r = f.fetch_result(now, path, version, outcome);
    let g = f.fetched(now, path, version, outcome);
    let a = (if r.state == Some(WantState::GaveUp) {
        seq![status_action(id, StatusView::GaveUp { path })]
    } else {
        Seq::empty()
    });
    lemma_quiet_told(a, id, f.index, f.index);
    match r.unrecoverable {
        Some(c) => {
            let b = seq![ActionView::IndexChanged { folder: id, record: c.record }];
            let e = seq![status_action(id, StatusView::Unrecoverable { path })];
            lemma_one_told(id, f.index, g.index, c.record.entry);
            lemma_quiet_told(e, id, g.index, g.index);
            lemma_told_concat(b, e, id, f.index, g.index, g.index);
            lemma_told_concat(a, b + e, id, f.index, f.index, g.index);
            assert(b + e =~= seq![
                ActionView::IndexChanged { folder: id, record: c.record },
                status_action(id, StatusView::Unrecoverable { path }),
            ]);
        },
        None => {
            let b = Seq::<ActionView>::empty();
            lemma_quiet_told(b, id, f.index, g.index);
            lemma_told_concat(a, b, id, f.index, f.index, g.index);
        },
    }
}

// ---- reverting --------------------------------------------------------------

/// Whether some actions report what was put back in place of pending changes.
spec fn put_back(acts: Seq<ActionView>, id: FolderId, f: IndexView, g: IndexView) -> bool {
    &&& tells(acts, id, f, g)
    &&& only_about(acts, id)
    &&& g.seq == f.seq
    &&& forall|p: Seq<u8>, i: int|
        0 <= i < acts.len() && #[trigger] reports(acts[i], id, p) ==> f.pending.contains_key(p)
            && g.get(p) == f.pending[p]
}

proof fn lemma_mirrored_reverted(
    id: FolderId,
    rs: Seq<RevertedView>,
    p: Seq<u8>,
    before: Option<RecordView>,
)
    requires
        forall|i: int|
            0 <= i < rs.len() && (#[trigger] rs[i]).restored is Some ==> (
            rs[i].restored->0).entry.path == rs[i].path,
        forall|i: int, j: int|
            0 <= i < j < rs.len() ==> (#[trigger] rs[i]).path != (#[trigger] rs[j]).path,
    ensures
        forall|i: int|
            0 <= i < rs.len() && (#[trigger] rs[i]).path == p ==> mirrored(
                reverted_actions(id, rs),
                id,
                p,
                before,
            ) == rs[i].restored,
        (forall|i: int| 0 <= i < rs.len() ==> (#[trigger] rs[i]).path != p) ==> mirrored(
            reverted_actions(id, rs),
            id,
            p,
            before,
        ) == before,
    decreases rs.len(),
{
    if rs.len() > 0 {
        let t = rs.drop_last();
        assert forall|i: int| 0 <= i < t.len() && (#[trigger] t[i]).restored is Some implies (
        t[i].restored->0).entry.path == t[i].path by {
            assert(t[i] == rs[i]);
        }
        assert forall|i: int, j: int| 0 <= i < j < t.len() implies (#[trigger] t[i]).path != (
        #[trigger] t[j]).path by {
            assert(rs[i].path != rs[j].path);
        }
        lemma_mirrored_reverted(id, t, p, before);
        let acts = reverted_actions(id, rs);
        assert(acts.drop_last() =~= reverted_actions(id, t));
        let x = rs[rs.len() - 1];
        assert forall|i: int| 0 <= i < rs.len() && (#[trigger] rs[i]).path == p implies mirrored(
            acts,
            id,
            p,
            before,
        ) == rs[i].restored by {
            if i < t.len() {
                assert(t[i] == rs[i]);
                assert(rs[i].path != x.path);
            }
        }
        if forall|i: int| 0 <= i < rs.len() ==> (#[trigger] rs[i]).path != p {
            assert(x.path != p);
            assert forall|i: int| 0 <= i < t.len() implies (#[trigger] t[i]).path != p by {
                assert(t[i] == rs[i]);
            }
        }
    }
}

proof fn lemma_revert_told(f: FolderView, id: FolderId, now: Timestamp)
    requires
        f.index.well_formed(),
    ensures
        put_back(revert_actions(f, id), id, f.index, f.reverted(now).index),
{
    let g = f.reverted(now);
    let acts = revert_actions(f, id);
    if f.paused is None {
        assert(all_quiet(acts));
        lemma_quiet_told(acts, id, f.index, g.index);
        reveal(told);
        assert forall|p: Seq<u8>, i: int|
            0 <= i < acts.len() && #[trigger] reports(acts[i], id, p) implies
            f.index.pending.contains_key(p) && g.index.get(p) == f.index.pending[p] by {
            assert(quiet(acts[i]));
        }
    } else {
        let rs = f.index.reverted_list();
        let ks = in_order(f.index.pending.dom());
        law_revert_puts_back(f, now, Seq::empty());
        assert(f.index.pending.dom().subset_of(f.index.records.dom())) by {
            assert forall|k: Seq<u8>| f.index.pending.dom().contains(k) implies
                f.index.records.dom().contains(k) by {
                assert(f.index.pending.contains_key(k));
                assert(f.index.records.contains_key(k));
            }
        }
        vstd::set_lib::lemma_set_subset_finite(f.index.records.dom(), f.index.pending.dom());
        lemma_order_facts(f.index.pending.dom());
        assert forall|j: int| 0 <= j < rs.len() && (#[trigger] rs[j]).restored is Some implies (
        rs[j].restored->0).entry.path == rs[j].path by {
            assert(f.index.pending.dom().contains(ks[j]));
            assert(f.index.pending.contains_key(ks[j]));
        }
        assert forall|a: int, b: int| 0 <= a < b < rs.len() implies (#[trigger] rs[a]).path != (
        #[trigger] rs[b]).path by {
            assert(ks[a] != ks[b]);
        }
        let a = reverted_actions(id, rs);
        let r = f.revert_result()->0;
        let b = trash_actions(id, r.trash) + seq![
            status_action(
                id,
                StatusView::Reverted {
                    batch: r.batch,
                    trashed: r.trash.len(),
                    refetch: r.refetch,
                },
            ),
        ];
        assert(acts =~= a + b);
        assert forall|p: Seq<u8>| mirrored(acts, id, p, f.index.get(p)) == #[trigger] g.index.get(
            p,
        ) by {
            lemma_mirrored_concat(a, b, id, p, f.index.get(p));
            assert forall|i: int| 0 <= i < b.len() implies !reports(#[trigger] b[i], id, p) by {}
            lemma_mirrored_silent(b, id, p, mirrored(a, id, p, f.index.get(p)));
            lemma_mirrored_reverted(id, rs, p, f.index.get(p));
            law_revert_restores(f.index, p);
            if f.index.pending.contains_key(p) {
                assert(f.index.pending.dom().contains(p));
                let i = choose|i: int| 0 <= i < ks.len() && ks[i] == p;
                assert(rs[i].path == p);
            } else {
                assert forall|i: int| 0 <= i < rs.len() implies (#[trigger] rs[i]).path != p by {
                    assert(f.index.pending.dom().contains(ks[i]));
                }
            }
        }
        assert forall|p: Seq<u8>, i: int|
            0 <= i < acts.len() && #[trigger] reports(acts[i], id, p) implies
            f.index.pending.contains_key(p) && g.index.get(p) == f.index.pending[p] by {
            if i < a.len() {
                assert(acts[i] == a[i]);
                assert(f.index.pending.dom().contains(ks[i]));
                assert(rs[i].path == p);
                law_revert_restores(f.index, p);
            } else {
                assert(acts[i] == b[i - a.len()]);
            }
        }
        assert(only_about(acts, id)) by {
            assert forall|i: int| 0 <= i < acts.len() implies match #[trigger] acts[i] {
                ActionView::IndexChanged { folder, record } => folder == id,
                ActionView::IndexRemoved { folder, path } => folder == id,
                _ => true,
            } by {
                if i < a.len() {
                    assert(acts[i] == a[i]);
                } else {
                    assert(acts[i] == b[i - a.len()]);
                }
            }
        }
    }
}

// ---- all folders ------------------------------------------------------------

/// The folder that an action names.
pub open spec fn names(a: ActionView) -> Option<FolderId> {
    match a {
        ActionView::WakeAt(at) => None,
        ActionView::Send { to, payload } => Some(
            match payload {
                OutboundView::Batch(batch) => batch.folder,
                OutboundView::Decision(decision) => decision.folder,
                OutboundView::HaveUpTo { folder, seq } => folder,
            },
        ),
        ActionView::Fetch { folder, path, version, hash, size, from } => Some(folder),
        ActionView::Write { folder, path, entry, expected, displace } => Some(folder),
        ActionView::Remove { folder, path, expected, displace } => Some(folder),
        ActionView::SetMeta { folder, path, expected, mtime_ns, executable } => Some(folder),
        ActionView::MoveToTrash { folder, path } => Some(folder),
        ActionView::RecordBatch { batch, role, decision } => Some(batch.folder),
        ActionView::IndexChanged { folder, record } => Some(folder),
        ActionView::IndexRemoved { folder, path } => Some(folder),
        ActionView::WantChanged { folder, path, want } => Some(folder),
        ActionView::StatusChanged { folder, status } => Some(folder),
    }
}

/// Whether an action is work for the host alone: nothing is sent, nothing goes to history.
pub open spec fn housework(a: ActionView) -> bool {
    !(a is Send) && !(a is RecordBatch)
}

/// Whether some actions are housework for some folders.
pub open spec fn chores(acts: Seq<ActionView>, ids: Set<FolderId>) -> bool {
    forall|i: int| 0 <= i < acts.len() ==> housework(#[trigger] acts[i]) && (names(acts[i]) is Some
        ==> ids.contains(names(acts[i])->0))
}

proof fn lemma_chores_concat(a: Seq<ActionView>, b: Seq<ActionView>, ids: Set<FolderId>)
    requires
        chores(a, ids),
        chores(b, ids),
    ensures
        chores(a + b, ids),
{
    let c = a + b;
    assert forall|i: int| 0 <= i < c.len() implies housework(#[trigger] c[i]) && (names(c[i])
        is Some ==> ids.contains(names(c[i])->0)) by {
        if i < a.len() {
            assert(c[i] == a[i]);
        } else {
            assert(c[i] == b[i - a.len()]);
        }
    }
}

/// Whether some actions, which may be about several folders, report how the index of one changed.
#[verifier::opaque]
pub open spec fn heard(acts: Seq<ActionView>, id: FolderId, f: IndexView, g: IndexView) -> bool {
    &&& tells(acts, id, f, g)
    &&& f.seq <= g.seq
    &&& forall|i: int| 0 <= i < acts.len() ==> !((#[trigger] acts[i]) is IndexRemoved)
    &&& g.seq < u64::MAX ==> forall|i: int|
        0 <= i < acts.len() && (#[trigger] acts[i]) is IndexChanged
            && acts[i]->IndexChanged_folder == id ==> acts[i]->IndexChanged_record.seq > f.seq
}

proof fn lemma_told_heard(acts: Seq<ActionView>, id: FolderId, f: IndexView, g: IndexView)
    requires
        told(acts, id, f, g),
    ensures
        heard(acts, id, f, g),
{
    reveal(told);
    reveal(heard);
}

proof fn lemma_heard_concat(
    a: Seq<ActionView>,
    b: Seq<ActionView>,
    id: FolderId,
    f: IndexView,
    g: IndexView,
    h: IndexView,
)
    requires
        heard(a, id, f, g),
        heard(b, id, g, h),
    ensures
        heard(a + b, id, f, h),
{
    reveal(heard);
    lemma_tells_concat(a, b, id, f, g, h);
    let c = a + b;
    assert forall|i: int| 0 <= i < c.len() implies !((#[trigger] c[i]) is IndexRemoved) by {
        if i < a.len() {
            assert(c[i] == a[i]);
        } else {
            assert(c[i] == b[i - a.len()]);
        }
    }
    if h.seq < u64::MAX {
        assert forall|i: int|
            0 <= i < c.len() && (#[trigger] c[i]) is IndexChanged && c[i]->IndexChanged_folder
                == id implies c[i]->IndexChanged_record.seq > f.seq by {
            if i < a.len() {
                assert(a[i] is IndexChanged && a[i]->IndexChanged_folder == id);
            } else {
                assert(b[i - a.len()] is IndexChanged);
            }
        }
    }
}

/// What is reported of one folder says nothing of another.
proof fn lemma_elsewhere_heard(
    acts: Seq<ActionView>,
    k: FolderId,
    id: FolderId,
    x: IndexView,
    y: IndexView,
    f: IndexView,
)
    requires
        told(acts, k, x, y),
        k != id,
    ensures
        heard(acts, id, f, f),
{
    reveal(told);
    reveal(heard);
    assert forall|i: int| 0 <= i < acts.len() && (#[trigger] acts[i]) is IndexChanged implies
        acts[i]->IndexChanged_folder != id by {
        assert(match acts[i] {
            ActionView::IndexChanged { folder, record } => folder == k,
            _ => true,
        });
    }
    assert forall|p: Seq<u8>| mirrored(acts, id, p, f.get(p)) == #[trigger] f.get(p) by {
        assert forall|i: int| 0 <= i < acts.len() implies !reports(#[trigger] acts[i], id, p) by {
            assert(!(acts[i] is IndexRemoved));
        }
        lemma_mirrored_silent(acts, id, p, f.get(p));
    }
}

/// Driving one folder's want-list is told, and is housework for that folder.
proof fn lemma_pump_told(
    s: FoldersStep,
    k: FolderId,
    peers: Map<NodeId, Tier>,
    now: Timestamp,
) -> (extra: Seq<ActionView>)
    requires
        s.folders.contains_key(k),
    ensures
        s.pump(k, peers, now).actions == s.actions + extra,
        s.pump(k, peers, now).folders == s.folders.insert(k, driven(s.folders[k], peers, now)),
        told(extra, k, s.folders[k].index, driven(s.folders[k], peers, now).index),
        chores(extra, s.folders.dom()),
{
    reveal(FoldersStep::pump);
    let f0 = s.folders[k];
    let d = f0.dispatched(now, peers);
    let f = d.folder;
    let list = f0.wants.dispatched(now, f0.rules, peers);
    lemma_taken_told(
        k,
        WithSteps {
            folder: FolderView { wants: list.list, ..f0 },
            host: Seq::empty(),
            adopted: Seq::empty(),
        },
        now,
        list.steps,
    );
    let changed = distinct(f.wants.changed);
    let a = step_actions(k, f, d.host);
    let b = record_actions(k, d.adopted);
    let c = want_actions(
        k,
        Seq::new(changed.len(), |i: int| (changed[i], f.wants.get(changed[i]))),
    );
    let e = status_actions(k, f.statuses);
    let extra = a + b + c + e;
    assert(s.pump(k, peers, now).actions =~= s.actions + extra);
    lemma_quiet_told(a, k, f0.index, f0.index);
    lemma_quiet_told(c, k, f.index, f.index);
    lemma_quiet_told(e, k, f.index, f.index);
    lemma_told_concat(a, b, k, f0.index, f0.index, f.index);
    lemma_told_concat(a + b, c, k, f0.index, f.index, f.index);
    lemma_told_concat(a + b + c, e, k, f0.index, f.index, f.index);
    let ids = s.folders.dom();
    assert(chores(a, ids) && chores(b, ids) && chores(c, ids) && chores(e, ids));
    lemma_chores_concat(a, b, ids);
    lemma_chores_concat(a + b, c, ids);
    lemma_chores_concat(a + b + c, e, ids);
    extra
}

/// A folder after its want-list was driven and everything was reported.
pub open spec fn driven(f: FolderView, peers: Map<NodeId, Tier>, now: Timestamp) -> FolderView {
    let g = f.dispatched(now, peers).folder;
    FolderView {
        wants: WantListView { changed: Seq::empty(), ..g.wants },
        statuses: Seq::empty(),
        ..g
    }
}

proof fn lemma_pump_all_told(
    s: FoldersStep,
    ks: Seq<FolderId>,
    peers: Map<NodeId, Tier>,
    now: Timestamp,
    id: FolderId,
) -> (extra: Seq<ActionView>)
    requires
        forall|i: int| 0 <= i < ks.len() ==> s.folders.contains_key(#[trigger] ks[i]),
        ks.no_duplicates(),
    ensures
        ({
            let r = s.pump_all(ks, peers, now);
            &&& r.actions == s.actions + extra
            &&& r.folders.dom() =~= s.folders.dom()
            &&& chores(extra, s.folders.dom())
            &&& s.folders.contains_key(id) ==> heard(
                extra,
                id,
                s.folders[id].index,
                r.folders[id].index,
            ) && r.folders[id] == if ks.contains(id) {
                driven(s.folders[id], peers, now)
            } else {
                s.folders[id]
            }
        }),
    decreases ks.len(),
{
    if ks.len() == 0 {
        let none = Seq::<ActionView>::empty();
        assert(s.actions + none =~= s.actions);
        if s.folders.contains_key(id) {
            lemma_quiet_told(none, id, s.folders[id].index, s.folders[id].index);
            lemma_told_heard(none, id, s.folders[id].index, s.folders[id].index);
        }
        none
    } else {
        let t = ks.drop_last();
        let k = ks[ks.len() - 1];
        assert forall|i: int| 0 <= i < t.len() implies s.folders.contains_key(#[trigger] t[i]) by {
            assert(t[i] == ks[i]);
        }
        assert forall|i: int, j: int| 0 <= i < t.len() && 0 <= j < t.len() && i != j implies t[i]
            != t[j] by {
            assert(ks[i] != ks[j]);
        }
        let first = lemma_pump_all_told(s, t, peers, now, id);
        let m = s.pump_all(t, peers, now);
        assert(s.folders.contains_key(k));
        assert(m.folders.dom().contains(k));
        let second = lemma_pump_told(m, k, peers, now);
        let r = s.pump_all(ks, peers, now);
        let extra = first + second;
        assert(r.actions =~= s.actions + extra);
        lemma_chores_concat(first, second, s.folders.dom());
        assert(r.folders.dom() =~= s.folders.dom());
        assert(ks.contains(id) <==> t.contains(id) || k == id) by {
            if ks.contains(id) {
                let i = choose|i: int| 0 <= i < ks.len() && ks[i] == id;
                if i < t.len() {
                    assert(t[i] == id);
                }
            }
            if t.contains(id) {
                let i = choose|i: int| 0 <= i < t.len() && t[i] == id;
                assert(ks[i] == id);
            }
            assert(ks[ks.len() - 1] == k);
        }
        assert(!t.contains(k)) by {
            if t.contains(k) {
                let i = choose|i: int| 0 <= i < t.len() && t[i] == k;
                assert(ks[i] != ks[ks.len() - 1]);
            }
        }
        if s.folders.contains_key(id) {
            assert(m.folders.dom().contains(id));
            let (x, y, z) = (s.folders[id].index, m.folders[id].index, r.folders[id].index);
            if k == id {
                lemma_told_heard(second, id, y, z);
            } else {
                lemma_elsewhere_heard(
                    second,
                    k,
                    id,
                    m.folders[k].index,
                    driven(m.folders[k], peers, now).index,
                    y,
                );
            }
            lemma_heard_concat(first, second, id, x, y, z);
        }
        extra
    }
}

proof fn lemma_schedule_told(s: EngineStep, ks: Seq<FolderId>) -> (extra: Seq<ActionView>)
    ensures
        s.schedule_all(ks).actions == s.actions + extra,
        forall|i: int| 0 <= i < extra.len() ==> (#[trigger] extra[i]) is WakeAt,
    decreases ks.len(),
{
    if ks.len() == 0 {
        assert(s.actions + Seq::<ActionView>::empty() =~= s.actions);
        Seq::empty()
    } else {
        let first = lemma_schedule_told(s, ks.drop_last());
        let b = s.schedule_all(ks.drop_last());
        let r = s.schedule_all(ks);
        if r.actions == b.actions {
            first
        } else {
            let extra = first.push(r.actions.last());
            assert(r.actions =~= s.actions + extra);
            extra
        }
    }
}

proof fn lemma_tick_told(
    s: TickStep,
    k: FolderId,
    own: NodeId,
    peers: Map<NodeId, Tier>,
    now: Timestamp,
    fresh: BatchId,
) -> (extra: Seq<ActionView>)
    requires
        s.folders.contains_key(k),
    ensures
        ({
            let r = s.tick(k, own, peers, now, fresh);
            &&& r.actions == s.actions + extra
            &&& all_quiet(extra)
            &&& r.folders.dom() =~= s.folders.dom()
            &&& r.folders[k].index.records == s.folders[k].index.records
            &&& r.folders[k].index.seq == s.folders[k].index.seq
            &&& forall|id: FolderId| id != k ==> #[trigger] r.folders[id] == s.folders[id]
        }),
{
    reveal(TickStep::tick);
    let f0 = s.folders[k];
    let overdue = overdue_among(f0.wants.wants, f0.wants.paths(), now);
    let f1 = FolderView { wants: f0.wants.with_states(overdue, WantState::Wanted), ..f0 };
    let base = fresh.after(s.used as int);
    let ps = in_order(f1.catchup);
    let f2 = FolderView { catchup: Set::empty(), ..f1 };
    let used = plus_used(s.used, f1.catchup_used(now, base, ps));
    let base2 = fresh.after(used as int);
    let f3 = f2.ticked(now, base2);
    let r = s.tick(k, own, peers, now, fresh);
    let a = stalled_actions(k, overdue);
    let b = catchup_actions(f1.catchup_all(now, base, ps));
    lemma_catchup_quiet(f1.catchup_all(now, base, ps));
    let c = match f2.tick_result(now, base2) {
        TickedView::Nothing => Seq::empty(),
        TickedView::Sent(batches) => sent_actions(batches, recipients(f3, own, peers)),
        TickedView::Paused { first, snapshot, status } => (if first {
            paused_actions(snapshot)
        } else {
            Seq::empty()
        }) + seq![status_action(k, status)],
    };
    match f2.tick_result(now, base2) {
        TickedView::Sent(batches) => {
            lemma_sent_quiet(batches, recipients(f3, own, peers));
        },
        _ => {},
    }
    assert(all_quiet(c));
    let extra = a + b + c;
    assert(r.actions =~= s.actions + extra);
    assert forall|i: int| 0 <= i < extra.len() implies quiet(#[trigger] extra[i]) by {
        if i < a.len() {
            assert(extra[i] == a[i]);
        } else if i < a.len() + b.len() {
            assert(extra[i] == b[i - a.len()]);
        } else {
            assert(extra[i] == c[i - a.len() - b.len()]);
        }
    }
    assert(r.folders == s.folders.insert(k, f3));
    extra
}

proof fn lemma_tick_all_told(
    s: TickStep,
    ks: Seq<FolderId>,
    own: NodeId,
    peers: Map<NodeId, Tier>,
    now: Timestamp,
    fresh: BatchId,
    id: FolderId,
) -> (extra: Seq<ActionView>)
    requires
        forall|i: int| 0 <= i < ks.len() ==> s.folders.contains_key(#[trigger] ks[i]),
        s.folders.contains_key(id),
    ensures
        ({
            let r = s.tick_all(ks, own, peers, now, fresh);
            &&& r.actions == s.actions + extra
            &&& all_quiet(extra)
            &&& r.folders.dom() =~= s.folders.dom()
            &&& r.folders[id].index.records == s.folders[id].index.records
            &&& r.folders[id].index.seq == s.folders[id].index.seq
        }),
    decreases ks.len(),
{
    if ks.len() == 0 {
        assert(s.actions + Seq::<ActionView>::empty() =~= s.actions);
        Seq::empty()
    } else {
        let t = ks.drop_last();
        let k = ks[ks.len() - 1];
        assert forall|i: int| 0 <= i < t.len() implies s.folders.contains_key(#[trigger] t[i]) by {
            assert(t[i] == ks[i]);
        }
        let first = lemma_tick_all_told(s, t, own, peers, now, fresh, id);
        let m = s.tick_all(t, own, peers, now, fresh);
        assert(s.folders.contains_key(k));
        assert(m.folders.dom().contains(k));
        let second = lemma_tick_told(m, k, own, peers, now, fresh);
        let r = s.tick_all(ks, own, peers, now, fresh);
        let extra = first + second;
        assert(r.actions =~= s.actions + extra);
        assert forall|i: int| 0 <= i < extra.len() implies quiet(#[trigger] extra[i]) by {
            if i < first.len() {
                assert(extra[i] == first[i]);
            } else {
                assert(extra[i] == second[i - first.len()]);
            }
        }
        extra
    }
}

/// Taking in any event but a revert reports what it writes to every index.
proof fn lemma_taken_in_told(s: EngineView, now: Timestamp, event: EventView, id: FolderId)
    requires
        s.folders.dom().finite(),
        s.folders.contains_key(id),
        !(event is Revert),
    ensures
        s.taken_in(now, event).engine.folders.contains_key(id),
        heard(
            s.taken_in(now, event).actions,
            id,
            s.folders[id].index,
            s.taken_in(now, event).engine.folders[id].index,
        ),
{
    let t = s.taken_in(now, event);
    let f = s.folders[id].index;
    match event {
        EventView::Tick { fresh_batch_id } => {
            lemma_ids(s);
            let start = TickStep { folders: s.folders, used: 0, actions: Seq::empty() };
            let extra = lemma_tick_all_told(
                start,
                s.ids(),
                s.node_id,
                s.peers,
                now,
                fresh_batch_id,
                id,
            );
            assert(t.actions =~= extra);
            assert(t.engine.folders.dom().contains(id));
            lemma_quiet_told(t.actions, id, f, t.engine.folders[id].index);
            lemma_told_heard(t.actions, id, f, t.engine.folders[id].index);
        },
        EventView::FolderJoined { folder, rules, members } => {
            assert(all_quiet(t.actions));
            lemma_quiet_told(t.actions, id, f, t.engine.folders[id].index);
            lemma_told_heard(t.actions, id, f, t.engine.folders[id].index);
        },
        EventView::PeerConnected { peer, tier } => {
            lemma_greetings_quiet(s.folders, s.ids(), peer);
            lemma_quiet_told(t.actions, id, f, f);
            lemma_told_heard(t.actions, id, f, f);
        },
        EventView::PeerTierChanged { peer, tier } => {
            lemma_quiet_told(t.actions, id, f, f);
            lemma_told_heard(t.actions, id, f, f);
        },
        EventView::PeerDisconnected { peer } => {
            lemma_quiet_told(t.actions, id, f, t.engine.folders[id].index);
            lemma_told_heard(t.actions, id, f, t.engine.folders[id].index);
        },
        _ => {
            let k = event.folder()->0;
            if s.folders.contains_key(k) {
                let g = s.folders[k];
                lemma_step_told(g, k, s.node_id, s.peers, now, event);
                let r = folder_step(g, k, s.node_id, s.peers, now, event);
                if k == id {
                    lemma_told_heard(t.actions, id, f, r.folder.index);
                } else {
                    lemma_elsewhere_heard(t.actions, k, id, g.index, r.folder.index, f);
                }
            } else {
                assert(all_quiet(t.actions));
                lemma_quiet_told(t.actions, id, f, f);
                lemma_told_heard(t.actions, id, f, f);
            }
        },
    }
}

/// What driving the want-lists and asking for wake-ups adds to what was asked for.
pub proof fn lemma_rest_told(t: EngineStep, now: Timestamp, id: FolderId) -> (extra: Seq<ActionView>)
    requires
        t.engine.folders.dom().finite(),
    ensures
        ({
            let p = t.pumped(now);
            let r = p.schedule_all(p.engine.ids());
            &&& r.actions == t.actions + extra
            &&& r.engine.folders.dom() =~= t.engine.folders.dom()
            &&& chores(extra, t.engine.folders.dom())
            &&& t.engine.folders.contains_key(id) ==> heard(
                extra,
                id,
                t.engine.folders[id].index,
                r.engine.folders[id].index,
            ) && r.engine.folders[id] == driven(t.engine.folders[id], t.engine.peers, now)
        }),
{
    let e = t.engine;
    lemma_ids(e);
    lemma_order_facts(e.folders.dom());
    let start = FoldersStep { folders: e.folders, actions: t.actions };
    let a = lemma_pump_all_told(start, e.ids(), e.peers, now, id);
    let p = t.pumped(now);
    let b = lemma_schedule_told(p, p.engine.ids());
    lemma_schedule_all(p, p.engine.ids());
    let r = p.schedule_all(p.engine.ids());
    let extra = a + b;
    assert(r.actions =~= t.actions + extra);
    assert(chores(b, e.folders.dom()));
    lemma_chores_concat(a, b, e.folders.dom());
    if e.folders.contains_key(id) {
        assert(e.folders.dom().contains(id));
        let g = r.engine.folders[id].index;
        assert(all_quiet(b));
        lemma_quiet_told(b, id, g, g);
        lemma_told_heard(b, id, g, g);
        lemma_heard_concat(a, b, id, e.folders[id].index, g, g);
    }
    extra
}

// ---- the laws ---------------------------------------------------------------

/// The host can keep a copy of every index: after any event, a copy that was equal to the index of
/// a folder and is told what the event reports, in order, is equal to it again.
pub proof fn law_reports_mirror_the_index(
    s: EngineView,
    now: Timestamp,
    event: EventView,
    id: FolderId,
    p: Seq<u8>,
)
    requires
        s.folders.dom().finite(),
        s.folders.contains_key(id),
        s.folders[id].index.well_formed(),
    ensures
        s.handled(now, event).engine.folders.contains_key(id),
        mirrored(s.handled(now, event).actions, id, p, s.folders[id].index.get(p)) == s.handled(
            now,
            event,
        ).engine.folders[id].index.get(p),
{
    let t = s.taken_in(now, event);
    let r = s.handled(now, event);
    lemma_taken_in_tells(s, now, event, id);
    let extra = lemma_rest_told(t, now, id);
    assert(r.engine.folders.dom().contains(id));
    reveal(heard);
    lemma_tells_concat(
        t.actions,
        extra,
        id,
        s.folders[id].index,
        t.engine.folders[id].index,
        r.engine.folders[id].index,
    );
    assert(r.engine.folders[id].index.get(p) == r.engine.folders[id].index.get(p));
}

/// Taking in any event tells how every index changed.
proof fn lemma_taken_in_tells(s: EngineView, now: Timestamp, event: EventView, id: FolderId)
    requires
        s.folders.dom().finite(),
        s.folders.contains_key(id),
        s.folders[id].index.well_formed(),
    ensures
        s.taken_in(now, event).engine.folders.dom().finite(),
        s.taken_in(now, event).engine.folders.contains_key(id),
        tells(
            s.taken_in(now, event).actions,
            id,
            s.folders[id].index,
            s.taken_in(now, event).engine.folders[id].index,
        ),
{
    let t = s.taken_in(now, event);
    lemma_taken_in(s, now, event);
    if event is Revert {
        let k = event.folder()->0;
        let f = s.folders[id];
        if k == id {
            lemma_revert_told(f, id, now);
        } else if s.folders.contains_key(k) {
            let g = s.folders[k];
            lemma_revert_elsewhere(g, k, now, id, f.index);
        } else {
            assert(all_quiet(t.actions));
            lemma_quiet_told(t.actions, id, f.index, f.index);
            reveal(told);
        }
    } else {
        lemma_taken_in_told(s, now, event, id);
        reveal(heard);
    }
}

proof fn lemma_revert_elsewhere(
    g: FolderView,
    k: FolderId,
    now: Timestamp,
    id: FolderId,
    f: IndexView,
)
    requires
        k != id,
    ensures
        forall|i: int, p: Seq<u8>|
            0 <= i < revert_actions(g, k).len() ==> !(#[trigger] reports(
                revert_actions(g, k)[i],
                id,
                p,
            )),
        tells(revert_actions(g, k), id, f, f),
{
    let acts = revert_actions(g, k);
    assert forall|i: int, p: Seq<u8>| 0 <= i < acts.len() implies !(#[trigger] reports(
        acts[i],
        id,
        p,
    )) by {
        if g.paused is Some {
            let r = g.revert_result()->0;
            let a = reverted_actions(k, r.reverted);
            let b = trash_actions(k, r.trash);
            if i < a.len() {
                assert(acts[i] == a[i]);
            } else if i < a.len() + b.len() {
                assert(acts[i] == b[i - a.len()]);
            }
        }
    }
    assert forall|p: Seq<u8>| mirrored(acts, id, p, f.get(p)) == #[trigger] f.get(p) by {
        assert forall|i: int| 0 <= i < acts.len() implies !reports(#[trigger] acts[i], id, p) by {}
        lemma_mirrored_silent(acts, id, p, f.get(p));
    }
}

/// The last report on a path is what a copy ends up with.
proof fn lemma_last_report(
    acts: Seq<ActionView>,
    id: FolderId,
    p: Seq<u8>,
    before: Option<RecordView>,
)
    ensures
        (exists|i: int| 0 <= i < acts.len() && reports(#[trigger] acts[i], id, p)) ==> exists|
            i: int,
        |
            0 <= i < acts.len() && last_report(acts, id, p, #[trigger] acts[i], i) && (match acts[i] {
                ActionView::IndexChanged { folder, record } => mirrored(acts, id, p, before)
                    == Some(record),
                _ => mirrored(acts, id, p, before) is None,
            }),
    decreases acts.len(),
{
    if exists|i: int| 0 <= i < acts.len() && reports(#[trigger] acts[i], id, p) {
        let t = acts.drop_last();
        let n = acts.len() - 1;
        if reports(acts[n], id, p) {
            assert(last_report(acts, id, p, acts[n], n));
        } else {
            let i = choose|i: int| 0 <= i < acts.len() && reports(#[trigger] acts[i], id, p);
            assert(t[i] == acts[i]);
            lemma_last_report(t, id, p, before);
            let j = choose|j: int|
                0 <= j < t.len() && last_report(t, id, p, #[trigger] t[j], j) && (match t[j] {
                    ActionView::IndexChanged { folder, record } => mirrored(t, id, p, before)
                        == Some(record),
                    _ => mirrored(t, id, p, before) is None,
                });
            assert(acts[j] == t[j]);
            assert(last_report(acts, id, p, acts[j], j)) by {
                assert forall|m: int| j < m < acts.len() implies !reports(
                    #[trigger] acts[m],
                    id,
                    p,
                ) by {
                    if m < t.len() {
                        assert(t[m] == acts[m]);
                    }
                }
            }
        }
    }
}

/// Whether an action is the last one that reports on a path.
pub open spec fn last_report(
    acts: Seq<ActionView>,
    id: FolderId,
    p: Seq<u8>,
    a: ActionView,
    i: int,
) -> bool {
    &&& reports(a, id, p)
    &&& forall|m: int| i < m < acts.len() ==> !reports(#[trigger] acts[m], id, p)
}

/// Every record that an event changed is reported, and the last report on its path says what it is
/// now: the record that stands there, or that none does.
pub proof fn law_every_change_is_reported(
    s: EngineView,
    now: Timestamp,
    event: EventView,
    id: FolderId,
    p: Seq<u8>,
)
    requires
        s.folders.dom().finite(),
        s.folders.contains_key(id),
        s.folders[id].index.well_formed(),
        s.handled(now, event).engine.folders[id].index.get(p) != s.folders[id].index.get(p),
    ensures
        ({
            let r = s.handled(now, event);
            exists|i: int|
                0 <= i < r.actions.len() && last_report(
                    r.actions,
                    id,
                    p,
                    #[trigger] r.actions[i],
                    i,
                ) && (match r.actions[i] {
                    ActionView::IndexChanged { folder, record } => r.engine.folders[id].index.get(
                        p,
                    ) == Some(record),
                    _ => r.engine.folders[id].index.get(p) is None,
                })
        }),
{
    let r = s.handled(now, event);
    law_reports_mirror_the_index(s, now, event, id, p);
    let before = s.folders[id].index.get(p);
    if forall|i: int| 0 <= i < r.actions.len() ==> !reports(#[trigger] r.actions[i], id, p) {
        lemma_mirrored_silent(r.actions, id, p, before);
    }
    lemma_last_report(r.actions, id, p, before);
}

/// Only a revert removes records.
pub proof fn law_only_a_revert_removes(s: EngineView, now: Timestamp, event: EventView, i: int)
    requires
        s.folders.dom().finite(),
        0 <= i < s.handled(now, event).actions.len(),
        s.handled(now, event).actions[i] is IndexRemoved,
    ensures
        event is Revert,
{
    if !(event is Revert) {
        let t = s.taken_in(now, event);
        let r = s.handled(now, event);
        lemma_taken_in(s, now, event);
        lemma_nothing_removed(s, now, event);
        let any = vstd::pervasive::arbitrary::<FolderId>();
        if s.folders.dom() =~= Set::empty() && t.engine.folders.dom() =~= Set::empty() {
            let extra = lemma_rest_told(t, now, any);
            if i < t.actions.len() {
                assert(r.actions[i] == t.actions[i]);
            } else {
                let a = extra[i - t.actions.len()];
                assert(r.actions[i] == a);
                assert(names(a) is Some ==> t.engine.folders.dom().contains(names(a)->0));
            }
        } else {
            let k = t.engine.folders.dom().choose();
            assert(t.engine.folders.dom().contains(k)) by {
                if s.folders.dom() =~= Set::empty() {
                } else {
                    let x = s.folders.dom().choose();
                    assert(s.folders.dom().contains(x));
                    assert(s.folders.contains_key(x));
                    assert(t.engine.folders.contains_key(x));
                    assert(t.engine.folders.dom().contains(x));
                }
            }
            let extra = lemma_rest_told(t, now, k);
            reveal(heard);
            if i < t.actions.len() {
                assert(r.actions[i] == t.actions[i]);
            } else {
                assert(r.actions[i] == extra[i - t.actions.len()]);
            }
        }
    }
}

proof fn lemma_nothing_removed(s: EngineView, now: Timestamp, event: EventView)
    requires
        s.folders.dom().finite(),
        !(event is Revert),
    ensures
        forall|i: int|
            0 <= i < s.taken_in(now, event).actions.len() ==> !((#[trigger] s.taken_in(
                now,
                event,
            ).actions[i]) is IndexRemoved),
{
    reveal(heard);
    let t = s.taken_in(now, event);
    if s.folders.dom() =~= Set::empty() {
        match event {
            EventView::Tick { fresh_batch_id } => {
                lemma_order_facts(s.folders.dom());
                assert(t.actions =~= Seq::empty());
            },
            EventView::PeerConnected { peer, tier } => {
                lemma_greetings_quiet(s.folders, s.ids(), peer);
                assert forall|i: int| 0 <= i < t.actions.len() implies !((
                #[trigger] t.actions[i]) is IndexRemoved) by {
                    assert(quiet(t.actions[i]));
                }
            },
            _ => {},
        }
    } else {
        let id = s.folders.dom().choose();
        assert(s.folders.dom().contains(id));
        assert(s.folders.contains_key(id));
        lemma_taken_in_told(s, now, event, id);
    }
}

/// A path whose record an event left as it was is not reported, while sequence numbers last.
pub proof fn law_what_stays_is_not_reported(
    s: EngineView,
    now: Timestamp,
    event: EventView,
    id: FolderId,
    p: Seq<u8>,
    i: int,
)
    requires
        s.folders.dom().finite(),
        s.folders.contains_key(id),
        s.folders[id].index.well_formed(),
        numbered(s.folders[id].index),
        s.handled(now, event).engine.folders[id].index.seq < u64::MAX,
        0 <= i < s.handled(now, event).actions.len(),
        reports(s.handled(now, event).actions[i], id, p),
    ensures
        s.handled(now, event).engine.folders[id].index.get(p) != s.folders[id].index.get(p),
{
    let f = s.folders[id].index;
    let t = s.taken_in(now, event);
    let r = s.handled(now, event);
    let m = t.engine.folders[id].index;
    let g = r.engine.folders[id].index;
    lemma_taken_in_tells(s, now, event, id);
    let extra = lemma_rest_told(t, now, id);
    if f.get(p) is Some {
        assert(f.records.contains_key(p));
        assert((f.get(p)->0).seq <= f.seq);
    }
    if exists|j: int| 0 <= j < extra.len() && reports(#[trigger] extra[j], id, p) {
        lemma_newer(extra, id, m, g, p);
        assert(f.seq <= m.seq) by {
            if event is Revert {
                lemma_revert_seq(s, now, event, id);
            } else {
                lemma_taken_in_told(s, now, event, id);
                reveal(heard);
            }
        }
    } else {
        reveal(heard);
        lemma_mirrored_silent(extra, id, p, m.get(p));
        assert(g.get(p) == m.get(p));
        if i >= t.actions.len() {
            assert(r.actions[i] == extra[i - t.actions.len()]);
        }
        assert(r.actions[i] == t.actions[i]);
        if event is Revert {
            let k = event.folder()->0;
            if k == id {
                lemma_revert_told(s.folders[id], id, now);
                assert(f.pending.contains_key(p) && m.get(p) == f.pending[p]);
            } else if s.folders.contains_key(k) {
                lemma_revert_elsewhere(s.folders[k], k, now, id, f);
            }
        } else {
            lemma_taken_in_told(s, now, event, id);
            lemma_newer(t.actions, id, f, m, p);
        }
    }
}

proof fn lemma_revert_seq(s: EngineView, now: Timestamp, event: EventView, id: FolderId)
    requires
        s.folders.contains_key(id),
        s.folders[id].index.well_formed(),
        event is Revert,
    ensures
        s.taken_in(now, event).engine.folders[id].index.seq == s.folders[id].index.seq,
{
    if event.folder()->0 == id {
        lemma_revert_told(s.folders[id], id, now);
    }
}

/// What was written is newer than what was there.
proof fn lemma_newer(acts: Seq<ActionView>, id: FolderId, f: IndexView, g: IndexView, p: Seq<u8>)
    requires
        heard(acts, id, f, g),
        g.seq < u64::MAX,
        exists|j: int| 0 <= j < acts.len() && reports(#[trigger] acts[j], id, p),
    ensures
        g.get(p) is Some,
        (g.get(p)->0).seq > f.seq,
{
    reveal(heard);
    lemma_last_report(acts, id, p, f.get(p));
    let i = choose|i: int|
        0 <= i < acts.len() && last_report(acts, id, p, #[trigger] acts[i], i) && (match acts[i] {
            ActionView::IndexChanged { folder, record } => mirrored(acts, id, p, f.get(p)) == Some(
                record,
            ),
            _ => mirrored(acts, id, p, f.get(p)) is None,
        });
    assert(!(acts[i] is IndexRemoved));
    assert(g.get(p) == mirrored(acts, id, p, f.get(p)));
}

/// An event about a folder that was not joined is answered so first; nothing is sent, nothing goes
/// to history, and no other action names the folder.
pub proof fn law_unknown_folder_is_answered(s: EngineView, now: Timestamp, event: EventView)
    requires
        s.folders.dom().finite(),
        event.folder() is Some,
        !s.folders.contains_key(event.folder()->0),
    ensures
        ({
            let id = event.folder()->0;
            let r = s.handled(now, event);
            &&& r.actions.len() > 0
            &&& r.actions[0] == status_action(id, StatusView::UnknownFolder)
            &&& forall|i: int|
                0 < i < r.actions.len() ==> housework(#[trigger] r.actions[i]) && names(
                    r.actions[i],
                ) != Some(id)
            &&& !r.engine.folders.contains_key(id)
        }),
{
    let id = event.folder()->0;
    let t = s.taken_in(now, event);
    let r = s.handled(now, event);
    let extra = lemma_rest_told(t, now, id);
    assert(!s.folders.dom().contains(id));
    assert forall|i: int| 0 < i < r.actions.len() implies housework(#[trigger] r.actions[i])
        && names(r.actions[i]) != Some(id) by {
        assert(r.actions[i] == extra[i - 1]);
    }
    assert(!r.engine.folders.dom().contains(id));
}

/// An event about one folder does no more to another than any event does: its want-list is driven.
pub proof fn law_other_folders_are_only_driven(
    s: EngineView,
    now: Timestamp,
    event: EventView,
    other: FolderId,
)
    requires
        s.folders.dom().finite(),
        event.folder() is Some,
        event.folder()->0 != other,
        s.folders.contains_key(other),
    ensures
        s.handled(now, event).engine.folders.contains_key(other),
        s.handled(now, event).engine.folders[other] == driven(s.folders[other], s.peers, now),
{
    let t = s.taken_in(now, event);
    let k = event.folder()->0;
    if s.folders.contains_key(k) {
        assert(t.engine.folders.dom() =~= s.folders.dom());
    }
    let extra = lemma_rest_told(t, now, other);
    assert(t.engine.folders.dom().contains(other));
    assert(s.handled(now, event).engine.folders.dom().contains(other));
}

} // verus!
