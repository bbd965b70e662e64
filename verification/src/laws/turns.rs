//! In which order things are done, and what a tick and a drive of the want-lists leave behind.

use crate::batch::{formed, BatchRole, BatchView};
use crate::engine_view::{
    paused_actions, plus_used, stalled_actions, ActionView, FoldersStep, TickStep,
};
use crate::entry::Kind;
use crate::folder_view::{FolderView, StatusView, TickedView};
use crate::id::{BatchId, FolderId, NodeId};
use crate::laws::committing::{below, law_below_is_ancestry};
use crate::laws::dispatch::{blocked_ready, law_every_want_has_its_place, lemma_creates};
use crate::laws::sourcing::overdue_at;
use crate::order::{in_order, lemma_order_facts, Ordered};
use crate::rules::Rules;
use crate::time::Timestamp;
use crate::want::{
    creates_among, deletes_among, overdue_among, Tier, WantListView, WantState, WantView,
};
use vstd::prelude::*;

verus! {

/// Whether nothing but its turn keeps a want from being committed: its content is at hand or not
/// needed, and it is neither with the host nor given up.
pub open spec fn at_hand(w: WantView) -> bool {
    &&& !(w.mode == crate::batch::ApplyMode::Fetch && !w.fetched)
    &&& w.state is Wanted || w.state is Blocked || w.state is Deferred || w.state is NoSource
}

/// Wants are committed in this order: first what is created, in the order of paths, so that a
/// directory comes before what is in it; then what is deleted, in the opposite order. Every want
/// that only waits for its turn gets one.
pub proof fn law_order_of_commits(s: WantListView)
    requires
        s.wants.dom().finite(),
    ensures
        ({
            let ps = s.commit_order();
            &&& forall|p: Seq<u8>| #[trigger]
                ps.contains(p) <==> s.wants.contains_key(p) && at_hand(s.wants[p])
            &&& forall|i: int, j: int|
                0 <= i < j < ps.len() ==> {
                    let a = #[trigger] ps[i];
                    let b = #[trigger] ps[j];
                    &&& s.wants[a].entry.deleted ==> s.wants[b].entry.deleted
                    &&& !s.wants[a].entry.deleted && !s.wants[b].entry.deleted ==> a.before(b)
                    &&& s.wants[a].entry.deleted && s.wants[b].entry.deleted ==> b.before(a)
                }
        }),
{
    let m = s.wants;
    let ks = s.paths();
    lemma_order_facts(m.dom());
    lemma_creates(m, ks);
    let cs = creates_among(m, ks);
    let ds = deletes_among(m, ks);
    let ps = s.commit_order();
    assert forall|i: int| 0 <= i < ps.len() implies (i < cs.len() ==> cs.contains(
        #[trigger] ps[i],
    )) && (i >= cs.len() ==> ds.contains(ps[i])) by {
        if i < cs.len() {
            assert(ps[i] == cs[i]);
        } else {
            assert(ps[i] == ds[ds.len() - 1 - (i - cs.len())]);
        }
    }
    assert forall|p: Seq<u8>| #[trigger] ps.contains(p) <==> m.contains_key(p) && at_hand(m[p]) by {
        if ps.contains(p) {
            let i = choose|i: int| 0 <= i < ps.len() && ps[i] == p;
            if i < cs.len() {
                assert(cs.contains(ps[i]));
            } else {
                assert(ds.contains(ps[i]));
            }
            assert(ks.contains(p));
            assert(m.dom().contains(p));
        }
        if m.contains_key(p) && at_hand(m[p]) {
            assert(m.dom().contains(p));
            assert(ks.contains(p));
            if m[p].entry.deleted {
                assert(ds.contains(p));
                let i = choose|i: int| 0 <= i < ds.len() && ds[i] == p;
                assert(ps[cs.len() + (ds.len() - 1 - i)] == p);
            } else {
                assert(cs.contains(p));
                let i = choose|i: int| 0 <= i < cs.len() && cs[i] == p;
                assert(ps[i] == p);
            }
        }
    }
    assert forall|i: int, j: int| 0 <= i < j < ps.len() implies ({
        let a = #[trigger] ps[i];
        let b = #[trigger] ps[j];
        &&& m[a].entry.deleted ==> m[b].entry.deleted
        &&& !m[a].entry.deleted && !m[b].entry.deleted ==> a.before(b)
        &&& m[a].entry.deleted && m[b].entry.deleted ==> b.before(a)
    }) by {
        if i < cs.len() {
            assert(cs.contains(ps[i]));
            if j < cs.len() {
                assert(cs.contains(ps[j]));
                assert(cs[i].before(cs[j]));
            } else {
                assert(ds.contains(ps[j]));
            }
        } else {
            assert(ds.contains(ps[i]) && ds.contains(ps[j]));
            let a = ds.len() - 1 - (i - cs.len());
            let b = ds.len() - 1 - (j - cs.len());
            assert(ds[b].before(ds[a]));
        }
    }
}

/// A want waits for another only for the sake of order: something to be created for a directory
/// above it that is still wanted, a directory to be deleted for something below it that is still to
/// be deleted.
pub proof fn law_waits_for_order_only(
    s: WantListView,
    now: Timestamp,
    rules: Rules,
    peers: Map<NodeId, Tier>,
    p: Seq<u8>,
)
    requires
        s.well_formed(),
        blocked_ready(s.wants),
        s.wants.contains_key(p),
        s.dispatched(now, rules, peers).list.wants.contains_key(p),
        s.dispatched(now, rules, peers).list.wants[p].state is Blocked,
    ensures
        ({
            let m = s.dispatched(now, rules, peers).list.wants;
            let e = m[p].entry;
            exists|q: Seq<u8>| #[trigger]
                m.contains_key(q) && if e.deleted {
                    e.kind == Kind::Dir && m[q].entry.deleted && below(m[q].entry.path, e.path)
                } else {
                    !m[q].entry.deleted && m[q].entry.kind == Kind::Dir && below(
                        e.path,
                        m[q].entry.path,
                    )
                }
        }),
{
    law_every_want_has_its_place(s, now, rules, peers, p);
    let m = s.dispatched(now, rules, peers).list.wants;
    let e = m[p].entry;
    if e.deleted {
        let q = choose|q: Seq<u8>| #[trigger]
            m.contains_key(q) && m[q].entry.deleted && crate::path::ancestor(
                e.path,
                m[q].entry.path,
            );
        law_below_is_ancestry(m[q].entry.path, e.path);
        assert(m.contains_key(q));
    } else {
        let q = choose|q: Seq<u8>| #[trigger]
            m.contains_key(q) && m[q].makes_dir() && crate::path::ancestor(
                m[q].entry.path,
                e.path,
            );
        law_below_is_ancestry(e.path, m[q].entry.path);
        assert(m.contains_key(q));
    }
}

// ---- driving ----------------------------------------------------------------

/// Driving a folder asks for what its want-list hands out, reports the records it took in, every
/// want that changed as it now stands and every status that was raised, in this order; then
/// nothing is left to be reported, and no other folder is touched.
pub proof fn law_driving_reports_everything(
    s: FoldersStep,
    id: FolderId,
    peers: Map<NodeId, Tier>,
    now: Timestamp,
    i: int,
    status: StatusView,
)
    ensures
        ({
            let d = s.folders[id].dispatched(now, peers);
            let f = d.folder;
            let r = s.pump(id, peers, now);
            let n = s.actions.len() as int;
            let h = d.host.len() as int;
            &&& r.folders == s.folders.insert(id, r.folders[id])
            &&& r.folders[id].statuses.len() == 0
            &&& r.folders[id].wants.changed.len() == 0
            &&& r.folders[id].wants.wants == f.wants.wants
            &&& r.folders[id].index == f.index
            &&& r.folders[id].deferred == f.deferred
            &&& r.folders[id].quarantine == f.quarantine
            &&& r.folders[id].window == f.window
            &&& r.folders[id].paused == f.paused
            &&& 0 <= i < n ==> r.actions[i] == s.actions[i]
            &&& 0 <= i < h ==> r.actions[n + i] == crate::engine_view::step_actions(
                id,
                f,
                d.host,
            )[i]
            &&& 0 <= i < d.adopted.len() ==> r.actions[n + h + i] == (ActionView::IndexChanged {
                folder: id,
                record: d.adopted[i],
            })
            &&& f.statuses.contains(status) ==> r.actions.contains(
                ActionView::StatusChanged { folder: id, status },
            )
        }),
{
    reveal(FoldersStep::pump);
    let d = s.folders[id].dispatched(now, peers);
    let f = d.folder;
    let r = s.pump(id, peers, now);
    if f.statuses.contains(status) {
        let j = choose|j: int| 0 <= j < f.statuses.len() && f.statuses[j] == status;
        let k = r.actions.len() - f.statuses.len() + j;
        assert(r.actions[k] == (ActionView::StatusChanged { folder: id, status }));
    }
}

// ---- ticking ----------------------------------------------------------------

/// A tick of a folder takes back what is overdue and says so, brings every node up to date that
/// asked for it, and does what its window asks for; afterwards nobody waits for catch-up. A folder
/// that pauses puts its batches into history as paused, and says why.
pub proof fn law_tick_of_a_folder(
    t: TickStep,
    id: FolderId,
    own: NodeId,
    peers: Map<NodeId, Tier>,
    now: Timestamp,
    fresh: BatchId,
    p: Seq<u8>,
    b: BatchView,
)
    requires
        t.folders[id].wants.wants.dom().finite(),
    ensures
        ({
            let f = t.folders[id];
            let r = t.tick(id, own, peers, now, fresh);
            let g = r.folders[id];
            let late = f.wants.wants.contains_key(p) && overdue_at(f.wants.wants[p]) is Some && (
            overdue_at(f.wants.wants[p])->0).0 <= now.0;
            &&& r.folders == t.folders.insert(id, g)
            &&& g.catchup =~= Set::empty()
            &&& g.acked == f.acked
            &&& g.deferred == f.deferred
            &&& g.wants.wants.contains_key(p) == f.wants.wants.contains_key(p)
            &&& f.wants.wants.contains_key(p) ==> g.wants.wants[p] == if late {
                WantView { state: WantState::Wanted, ..f.wants.wants[p] }
            } else {
                f.wants.wants[p]
            }
            &&& late ==> r.actions.contains(
                ActionView::StatusChanged { folder: id, status: StatusView::Stalled { path: p } },
            )
            &&& f.paused is None && g.paused is Some ==> {
                let x = g.paused->0;
                &&& r.actions.last() == (ActionView::StatusChanged {
                    folder: id,
                    status: StatusView::Paused {
                        batch: x.batch,
                        reason: x.reason,
                        summary: x.summary,
                    },
                })
                &&& formed(
                    x.batch,
                    f.id,
                    f.index.own,
                    now,
                    f.index.unannounced(),
                    f.index.announced_seq,
                ).contains(b) ==> r.actions.contains(
                    ActionView::RecordBatch { batch: b, role: BatchRole::Paused, decision: None },
                )
            }
            &&& f.paused is Some && f.window is Some && (f.window->0).end().0 <= now.0
                ==> r.actions.len() > 0 && r.actions.last() is StatusChanged
                && r.actions.last()->StatusChanged_status is PausedRecheck
        }),
{
    reveal(TickStep::tick);
    let f0 = t.folders[id];
    let overdue = overdue_among(f0.wants.wants, f0.wants.paths(), now);
    let f1 = FolderView { wants: f0.wants.with_states(overdue, WantState::Wanted), ..f0 };
    let base = fresh.after(t.used as int);
    let ps = in_order(f1.catchup);
    let f2 = FolderView { catchup: Set::empty(), ..f1 };
    let used = plus_used(t.used, f1.catchup_used(now, base, ps));
    let base2 = fresh.after(used as int);
    let r = t.tick(id, own, peers, now, fresh);
    let g = r.folders[id];
    crate::laws::sourcing::law_taken_back_from_the_host(f0, now, own, p);
    crate::laws::announcing::law_tick_exactly(f2, now, base2);
    lemma_order_facts(f0.wants.wants.dom());
    let late = f0.wants.wants.contains_key(p) && overdue_at(f0.wants.wants[p]) is Some && (
    overdue_at(f0.wants.wants[p])->0).0 <= now.0;
    let n = t.actions.len() as int;
    let a = stalled_actions(id, overdue);
    if late {
        crate::laws::want::law_overdue_exactly(f0.wants, now, p);
        let i = choose|i: int| 0 <= i < overdue.len() && overdue[i] == p;
        assert(r.actions[n + i] == a[i]);
    }
    if f0.paused is None && g.paused is Some {
        let x = g.paused->0;
        let bs = formed(
            x.batch,
            f0.id,
            f0.index.own,
            now,
            f0.index.unannounced(),
            f0.index.announced_seq,
        );
        if bs.contains(b) {
            let i = choose|i: int| 0 <= i < bs.len() && bs[i] == b;
            let k = r.actions.len() - 1 - bs.len() + i;
            assert(r.actions[k] == paused_actions(bs)[i]);
        }
    }
}

/// The batches of some lists, one list after another.
pub open spec fn one_by_one(l: Seq<(NodeId, Seq<BatchView>)>) -> Seq<BatchView>
    decreases l.len(),
{
    if l.len() == 0 {
        Seq::empty()
    } else {
        one_by_one(l.drop_last()) + l.last().1
    }
}

/// No two batches of a catch-up share an identifier while there are identifiers: they are counted
/// on from the first, through all the nodes.
pub proof fn law_catchup_is_numbered_through(
    f: FolderView,
    now: Timestamp,
    base: BatchId,
    ps: Seq<NodeId>,
    k: int,
)
    ensures
        one_by_one(f.catchup_all(now, base, ps)).len() == f.catchup_used(now, base, ps),
        0 <= k < f.catchup_used(now, base, ps) ==> one_by_one(f.catchup_all(now, base, ps))[k].id
            == base.after(k),
    decreases ps.len(),
{
    if ps.len() > 0 {
        let t = ps.drop_last();
        law_catchup_is_numbered_through(f, now, base, t, k);
        let used = f.catchup_used(now, base, t);
        let bs = f.catchup_for(now, base.after(used as int), ps.last());
        let l = f.catchup_all(now, base, ps);
        let a = one_by_one(f.catchup_all(now, base, t));
        if bs.len() > 0 {
            assert(l.drop_last() =~= f.catchup_all(now, base, t));
            if used <= k < used + bs.len() {
                crate::id::law_counting_on(base, used as int, k - used);
                assert(bs[k - used].id == base.after(used as int).after(k - used));
                assert(one_by_one(l)[k] == bs[k - used]);
            } else if 0 <= k < used {
                assert(one_by_one(l)[k] == a[k]);
            }
        }
    }
}

/// A tick counts every identifier that it used: one for each batch it sent, and one for a pause.
pub proof fn law_identifiers_are_counted(
    t: TickStep,
    id: FolderId,
    own: NodeId,
    peers: Map<NodeId, Tier>,
    now: Timestamp,
    fresh: BatchId,
)
    ensures
        ({
            let f = t.folders[id];
            let r = t.tick(id, own, peers, now, fresh);
            let caught = f.catchup_used(now, fresh.after(t.used as int), in_order(f.catchup));
            let used = plus_used(t.used, caught);
            let g = FolderView { catchup: Set::empty(), ..f };
            r.used == match g.tick_result(now, fresh.after(used as int)) {
                TickedView::Nothing => used,
                TickedView::Sent(bs) => plus_used(used, bs.len()),
                TickedView::Paused { first, snapshot, status } => if first {
                    plus_used(used, 1)
                } else {
                    used
                },
            }
        }),
        forall|n: nat| t.used + n <= u128::MAX ==> #[trigger] plus_used(t.used, n) == t.used + n,
{
    reveal(TickStep::tick);
    let f0 = t.folders[id];
    let overdue = overdue_among(f0.wants.wants, f0.wants.paths(), now);
    let f1 = FolderView { wants: f0.wants.with_states(overdue, WantState::Wanted), ..f0 };
    lemma_catchup_wantless(f0, f1, now, fresh.after(t.used as int), in_order(f0.catchup));
}

proof fn lemma_catchup_wantless(
    f: FolderView,
    g: FolderView,
    now: Timestamp,
    base: BatchId,
    ps: Seq<NodeId>,
)
    requires
        g == (FolderView { wants: g.wants, ..f }),
    ensures
        g.catchup_used(now, base, ps) == f.catchup_used(now, base, ps),
    decreases ps.len(),
{
    if ps.len() > 0 {
        lemma_catchup_wantless(f, g, now, base, ps.drop_last());
    }
}

} // verus!
