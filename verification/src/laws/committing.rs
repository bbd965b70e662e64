//! What the host is told to do, and what becomes of the index once it was done.

use crate::batch::ApplyMode;
use crate::engine_view::{step_actions, ActionView};
use crate::entry::{EntryView, Kind, Observed};
use crate::folder::{ApplyOutcome, DeferredReason, Expected};
use crate::folder_view::{
    commit_step, DeferredView, DisplaceView, FolderView, HostStepView, WithSteps,
};
use crate::id::{FolderId, NodeId};
use crate::index::IndexView;
use crate::laws::counting::stands;
use crate::laws::folder::law_deriving_anew_writes_nothing;
use crate::laws::want::law_commits_in_order;
use crate::order::in_order;
use crate::path::ancestor;
use crate::rules::Rules;
use crate::time::Timestamp;
use crate::version::{counter_of, Vector};
use crate::want::{Dispatched, Tier, WantListView, WantState, WantStepView, WantView, Wants};
use vstd::prelude::*;

verus! {

/// What commits a want, by what is wanted: where the content is there already, its time and its
/// executable bit are set as the wanted entry has them; a tombstone removes; anything else is
/// written, with the entry that is wanted. What is in the way goes to the conflict copy if the
/// want names one, else to the trash.
pub proof fn law_commit_does_what_is_wanted(w: WantView, expected: Option<Expected>)
    ensures
        ({
            let away = if w.conflict is Some {
                DisplaceView::ConflictCopy((w.conflict->0).path)
            } else {
                DisplaceView::Trash
            };
            let step = commit_step(w, expected);
            &&& w.mode == ApplyMode::MetadataOnly ==> step == (HostStepView::SetMeta {
                path: w.entry.path,
                mtime_ns: w.entry.mtime_ns,
                executable: w.entry.executable,
            })
            &&& w.mode != ApplyMode::MetadataOnly && w.entry.deleted ==> step == (
            HostStepView::Remove { path: w.entry.path, expected, displace: away })
            &&& w.mode != ApplyMode::MetadataOnly && !w.entry.deleted ==> step == (
            HostStepView::Write { path: w.entry.path, entry: w.entry, expected, displace: away })
        }),
{
}

/// What the host sees of a file once its time and executable bit were set.
pub open spec fn after_setting(o: Observed, step: HostStepView) -> Observed {
    Observed { mtime_ns: step->SetMeta_mtime_ns, executable: step->SetMeta_executable, ..o }
}

/// Setting the time and the executable bit of a file whose content is that of the wanted entry
/// leaves a file that is seen as the entry says: the next scan finds nothing changed.
pub proof fn law_setting_metadata_settles(
    s: IndexView,
    w: WantView,
    o: Observed,
    expected: Option<Expected>,
)
    requires
        w.mode == ApplyMode::MetadataOnly,
        w.entry.kind == Kind::File,
        !w.entry.deleted,
        o.kind == Kind::File,
        o.hash == w.entry.hash,
        o.size == w.entry.size,
    ensures
        after_setting(o, commit_step(w, expected)) == w.entry.observed(),
        s.adopted(w.entry).observe_change(
            w.entry.path,
            after_setting(o, commit_step(w, expected)),
        ) is None,
        s.adopted(w.entry).observe(
            w.entry.path,
            after_setting(o, commit_step(w, expected)),
        ) == s.adopted(w.entry),
{
}

/// What the host is told to expect at a path is what the index says is there.
pub proof fn law_expected_is_what_is_recorded(f: FolderView, p: Seq<u8>)
    ensures
        f.expected(p) is Some <==> stands(f.index, p),
        stands(f.index, p) ==> (f.expected(p)->0).kind == f.index.records[p].entry.kind && (
        f.expected(p)->0).size == f.index.records[p].entry.size && (f.expected(p)->0).mtime_ns
            == f.index.records[p].entry.mtime_ns,
{
}

/// What is asked of the host for a step names the folder and carries the step unchanged, with
/// everything the index believes of what is there.
pub proof fn law_step_is_passed_on(
    id: FolderId,
    f: FolderView,
    steps: Seq<HostStepView>,
    i: int,
)
    requires
        0 <= i < steps.len(),
    ensures
        step_actions(id, f, steps).len() == steps.len(),
        ({
            let a = step_actions(id, f, steps)[i];
            let p = match steps[i] {
                HostStepView::Fetch { path, version, hash, size, from } => path,
                HostStepView::Write { path, entry, expected, displace } => path,
                HostStepView::Remove { path, expected, displace } => path,
                HostStepView::SetMeta { path, mtime_ns, executable } => path,
            };
            let r = f.index.records[p].entry;
            let there = if stands(f.index, p) {
                Some(
                    Observed {
                        kind: r.kind,
                        size: r.size,
                        mtime_ns: r.mtime_ns,
                        executable: r.executable,
                        hash: r.hash,
                    },
                )
            } else {
                None
            };
            match steps[i] {
                HostStepView::Fetch { path, version, hash, size, from } => a == (
                ActionView::Fetch { folder: id, path, version, hash, size, from }),
                HostStepView::Write { path, entry, expected, displace } => a == (
                ActionView::Write { folder: id, path, entry, expected: there, displace }),
                HostStepView::Remove { path, expected, displace } => a == (ActionView::Remove {
                    folder: id,
                    path,
                    expected: there,
                    displace,
                }),
                HostStepView::SetMeta { path, mtime_ns, executable } => a == (
                ActionView::SetMeta { folder: id, path, expected: there, mtime_ns, executable }),
            }
        }),
{
}

/// Whether a version holds everything that the record at its path holds.
pub open spec fn supersedes(s: IndexView, e: EntryView) -> bool {
    s.records.contains_key(e.path) ==> forall|n: NodeId| #[trigger]
        counter_of(s.records[e.path].entry.version, n) <= counter_of(e.version, n)
}

/// A version is taken into the index exactly if it holds everything that the record there holds.
/// It then stands there as it is, under the next number; nothing is pending there any more, and
/// nothing else changes.
pub proof fn law_adopting(s: IndexView, e: EntryView)
    ensures
        s.adoptable(e) <==> supersedes(s, e),
        ({
            let t = s.adopted(e);
            &&& t.records.contains_key(e.path)
            &&& t.records[e.path].entry == e
            &&& s.seq < u64::MAX ==> t.seq == s.seq + 1
            &&& t.records[e.path].seq == t.seq
            &&& !t.pending.contains_key(e.path)
            &&& !t.exempt.contains(e.path)
            &&& forall|p: Seq<u8>|
                p != e.path ==> {
                    &&& (#[trigger] t.records.contains_key(p)) == s.records.contains_key(p)
                    &&& t.records[p] == s.records[p]
                    &&& t.pending.contains_key(p) == s.pending.contains_key(p)
                    &&& t.pending[p] == s.pending[p]
                    &&& t.exempt.contains(p) == s.exempt.contains(p)
                }
            &&& t == (IndexView {
                seq: t.seq,
                records: t.records,
                pending: t.pending,
                exempt: t.exempt,
                ..s
            })
        }),
{
}

/// What each step of the want-list becomes: a fetch is asked for with the hash and the size of
/// what is wanted at its path; a commit with what the index expects there; and a version that
/// needs nothing on disk is taken into the index and reported, or waits if the record has since
/// gone another way.
pub proof fn law_steps_are_taken(w: WithSteps, now: Timestamp, step: WantStepView)
    ensures
        ({
            let s = w.folder;
            let r = w.take(now, step);
            match step {
                WantStepView::Fetch { path, version, from } => {
                    &&& r.folder == s
                    &&& r.adopted == w.adopted
                    &&& r.host.len() == w.host.len() + 1
                    &&& r.host.drop_last() =~= w.host
                    &&& r.host.last() is Fetch
                    &&& r.host.last()->Fetch_path == path
                    &&& r.host.last()->Fetch_version == version
                    &&& r.host.last()->Fetch_from == from
                    &&& s.wants.wants.contains_key(path) ==> r.host.last()->Fetch_hash
                        == s.wants.wants[path].entry.hash && r.host.last()->Fetch_size
                        == s.wants.wants[path].entry.size
                },
                WantStepView::Commit(x) => {
                    &&& r.folder == s
                    &&& r.adopted == w.adopted
                    &&& r.host.len() == w.host.len() + 1
                    &&& r.host.drop_last() =~= w.host
                    &&& r.host.last() == commit_step(x, s.expected(x.entry.path))
                },
                WantStepView::Adopt(x) => {
                    &&& r.host == w.host
                    &&& r.folder == (if supersedes(s.index, x.entry) {
                        FolderView { index: s.index.adopted(x.entry), ..s }.touched(now)
                    } else {
                        s.deferring(
                            x.entry.path,
                            DeferredView {
                                entry: x.entry,
                                batch: x.batch,
                                source: x.source,
                                seq_high: x.seq_high,
                                reason: DeferredReason::ChangedUnderneath,
                            },
                        )
                    }).reconsidered(now, x.entry.path, DeferredReason::ChangedUnderneath)
                    &&& supersedes(s.index, x.entry) ==> {
                        &&& r.folder.index == s.index.adopted(x.entry)
                        &&& r.folder.window == s.touched(now).window
                        &&& r.adopted.len() == w.adopted.len() + 1
                        &&& r.adopted.drop_last() =~= w.adopted
                        &&& r.adopted.last() == r.folder.index.records[x.entry.path]
                    }
                    &&& !supersedes(s.index, x.entry) ==> r.folder.index == s.index && r.adopted
                        == w.adopted && r.folder.window == s.window
                },
            }
        }),
{
    match step {
        WantStepView::Adopt(x) => {
            let s = w.folder;
            law_adopting(s.index, x.entry);
            law_deriving_anew_writes_nothing(
                s.adopting(now, x.entry),
                now,
                x.entry.path,
                DeferredReason::ChangedUnderneath,
            );
            law_deriving_anew_writes_nothing(
                s.postponing(x),
                now,
                x.entry.path,
                DeferredReason::ChangedUnderneath,
            );
        },
        _ => {},
    }
}

/// Once the host has put a want in place: the want is gone and its entry is the record, nothing
/// pending there; the window opens, so that the others hear of it. If the host found the file
/// changed, or the record has since gone another way, the entry waits with its batch, and the
/// index stays. An answer for a version that is not wanted does nothing.
pub proof fn law_applied_exactly(
    f: FolderView,
    now: Timestamp,
    path: Seq<u8>,
    version: Vector,
    outcome: ApplyOutcome,
)
    requires
        f.wants.wants.contains_key(path) ==> f.wants.wants[path].entry.path == path,
    ensures
        ({
            let r = f.applied(now, path, version, outcome);
            let w = f.wants.wants[path];
            let g = r.folder.index;
            if !f.wants.wants.contains_key(path) || w.entry.version != version {
                r.folder == f && r.records.len() == 0
            } else if outcome == ApplyOutcome::Done && supersedes(f.index, w.entry) {
                &&& r.records.len() > 0
                &&& r.records[0].entry == w.entry
                &&& r.folder.window == f.touched(now).window
                &&& w.conflict is None ==> r.folder == FolderView {
                    wants: f.wants.removed(path),
                    index: f.index.adopted(w.entry),
                    ..f
                }.touched(now).reconsidered(now, path, DeferredReason::ChangedUnderneath)
                &&& w.conflict is None ==> g == f.index.adopted(w.entry) && r.records.len() == 1
                    && r.records[0] == g.records[path]
                &&& w.conflict is Some ==> {
                    let t = FolderView {
                        wants: f.wants.removed(path),
                        index: f.index.adopted(w.entry),
                        ..f
                    };
                    let c = (w.conflict->0);
                    r.folder == FolderView {
                        index: t.index.written(t.index.copy_entry(c.path, c.loser)),
                        ..t
                    }.touched(now).reclassified(now, c.path).reconsidered(
                        now,
                        path,
                        DeferredReason::ChangedUnderneath,
                    )
                }
                &&& w.conflict is Some && (w.conflict->0).path != path ==> {
                    let copy = w.conflict->0;
                    let e = g.records[copy.path].entry;
                    &&& g.records.contains_key(path) && g.records[path] == r.records[0]
                    &&& !g.pending.contains_key(path)
                    &&& r.records.len() == 2
                    &&& g.records.contains_key(copy.path) && g.records[copy.path]
                        == r.records[1]
                    &&& g.pending.contains_key(copy.path)
                    &&& e.path == copy.path
                    &&& e.kind == copy.loser.kind
                    &&& e.size == copy.loser.size
                    &&& e.mtime_ns == copy.loser.mtime_ns
                    &&& e.executable == copy.loser.executable
                    &&& e.hash == copy.loser.hash
                    &&& !e.deleted
                    &&& e.modified_by == f.index.own
                    &&& e.author_host == f.index.host
                    &&& forall|p: Seq<u8>|
                        p != path && p != copy.path ==> (#[trigger] g.records.contains_key(p))
                            == f.index.records.contains_key(p) && g.records[p]
                            == f.index.records[p]
                }
            } else {
                &&& r.records.len() == 0
                &&& r.folder.index == f.index
                &&& r.folder.window == f.window
                &&& !r.folder.wants.wants.contains_key(path)
                &&& forall|p: Seq<u8>|
                    p != path ==> (#[trigger] r.folder.wants.wants.contains_key(p))
                        == f.wants.wants.contains_key(p) && r.folder.wants.wants[p]
                        == f.wants.wants[p]
                &&& r.folder.deferred.contains_key(path)
                &&& r.folder.deferred[path] == (if f.deferred.contains_key(path) {
                    f.deferred[path]
                } else {
                    Seq::empty()
                }).push(
                    DeferredView {
                        entry: w.entry,
                        batch: w.batch,
                        source: w.source,
                        seq_high: w.seq_high,
                        reason: DeferredReason::ChangedUnderneath,
                    },
                )
            }
        }),
{
    if f.wants.wants_version(path, version) {
        let w = f.wants.wants[path];
        let s = FolderView { wants: f.wants.removed(path), ..f };
        law_adopting(f.index, w.entry);
        let t = s.adopting(now, w.entry);
        law_deriving_anew_writes_nothing(t, now, path, DeferredReason::ChangedUnderneath);
        if w.conflict is Some {
            let copy = w.conflict->0;
            let e = t.index.copy_entry(copy.path, copy.loser);
            let u = FolderView { index: t.index.written(e), ..t }.touched(now);
            lemma_touched_twice(FolderView { index: f.index.adopted(w.entry), ..s }, e, now);
            law_deriving_anew_writes_nothing(
                u,
                now,
                copy.path,
                DeferredReason::ChangedUnderneath,
            );
            let v = u.reclassified(now, copy.path);
            law_deriving_anew_writes_nothing(v, now, path, DeferredReason::ChangedUnderneath);
        }
    }
}

proof fn lemma_touched_twice(f: FolderView, e: EntryView, now: Timestamp)
    ensures
        ({
            let a = (FolderView { index: f.touched(now).index.written(e), ..f.touched(now) });
            let b = (FolderView { index: f.index.written(e), ..f });
            a.touched(now) == b.touched(now)
        }),
{
}

// ---- what the want-list hands out -------------------------------------------

/// Whether a step asks for a version from a node.
pub open spec fn asked(steps: Seq<WantStepView>, p: Seq<u8>, v: Vector, n: NodeId) -> bool {
    exists|i: int|
        0 <= i < steps.len() && #[trigger] steps[i] == (WantStepView::Fetch {
            path: p,
            version: v,
            from: n,
        })
}

/// Whether a step has a want committed.
pub open spec fn committed(steps: Seq<WantStepView>, w: WantView) -> bool {
    exists|i: int|
        0 <= i < steps.len() && (#[trigger] steps[i]) is Commit && steps[i]->Commit_0 == (
        WantView { state: steps[i]->Commit_0.state, ..w })
}

/// Whether a want that has come into the host's hands is there by a step that says so, with the
/// time by which the host should answer; and whether nothing of the want changed but its state.
pub open spec fn explained(
    d: Dispatched,
    before: Wants,
    p: Seq<u8>,
    now: Timestamp,
) -> bool {
    d.list.wants.contains_key(p) ==> {
        let w = d.list.wants[p];
        &&& before.contains_key(p)
        &&& w == (WantView { state: w.state, ..before[p] })
        &&& w.state == before[p].state || match w.state {
            WantState::Fetching { from, deadline } => deadline == now.plus(60_000_000_000)
                && asked(d.steps, p, before[p].entry.version, from),
            WantState::Committing { deadline } => deadline == now.plus(30_000_000_000)
                && committed(d.steps, before[p]),
            WantState::GaveUp => false,
            _ => true,
        }
    }
}

proof fn lemma_explained_more(
    a: Dispatched,
    b: Dispatched,
    before: Wants,
    p: Seq<u8>,
    now: Timestamp,
)
    requires
        explained(a, before, p, now),
        b.list.wants.contains_key(p) ==> a.list.wants.contains_key(p) && b.list.wants[p]
            == a.list.wants[p],
        a.steps.len() <= b.steps.len(),
        forall|i: int| 0 <= i < a.steps.len() ==> #[trigger] b.steps[i] == a.steps[i],
    ensures
        explained(b, before, p, now),
{
    if b.list.wants.contains_key(p) {
        let w = b.list.wants[p];
        match w.state {
            WantState::Fetching { from, deadline } => {
                if asked(a.steps, p, before[p].entry.version, from) {
                    let i = choose|i: int|
                        0 <= i < a.steps.len() && #[trigger] a.steps[i] == (WantStepView::Fetch {
                            path: p,
                            version: before[p].entry.version,
                            from,
                        });
                    assert(b.steps[i] == a.steps[i]);
                }
            },
            WantState::Committing { deadline } => {
                if committed(a.steps, before[p]) {
                    let i = choose|i: int|
                        0 <= i < a.steps.len() && (#[trigger] a.steps[i]) is Commit
                            && a.steps[i]->Commit_0 == (WantView {
                            state: a.steps[i]->Commit_0.state,
                            ..before[p]
                        });
                    assert(b.steps[i] == a.steps[i]);
                }
            },
            _ => {},
        }
    }
}

proof fn lemma_reselected_explained(
    s: WantListView,
    ks: Seq<Seq<u8>>,
    rules: Rules,
    peers: Map<NodeId, Tier>,
    p: Seq<u8>,
    now: Timestamp,
)
    ensures
        explained(
            Dispatched {
                list: s.reselected(s.wants, ks, rules, peers),
                steps: Seq::empty(),
            },
            s.wants,
            p,
            now,
        ),
    decreases ks.len(),
{
    if ks.len() > 0 {
        lemma_reselected_explained(s, ks.drop_last(), rules, peers, p, now);
    }
}

proof fn lemma_fetches_explained(
    d: Dispatched,
    before: Wants,
    ks: Seq<((Tier, NodeId), Seq<u8>)>,
    now: Timestamp,
    rules: Rules,
    peers: Map<NodeId, Tier>,
    p: Seq<u8>,
)
    requires
        explained(d, before, p, now),
    ensures
        explained(d.fetches(before, ks, now, rules, peers), before, p, now),
    decreases ks.len(),
{
    if ks.len() > 0 {
        lemma_fetches_explained(d, before, ks.drop_last(), now, rules, peers, p);
        let a = d.fetches(before, ks.drop_last(), now, rules, peers);
        let b = d.fetches(before, ks, now, rules, peers);
        let q = ks.last().1;
        if q == p {
            if b.steps.len() > a.steps.len() {
                assert(b.steps[b.steps.len() - 1] is Fetch);
            }
        }
        if !(q == p) || b.list.wants == a.list.wants || !b.list.wants.contains_key(p)
            || b.list.wants[p] == a.list.wants[p] {
            lemma_explained_more(a, b, before, p, now);
        }
    }
}

proof fn lemma_commits_explained(
    d: Dispatched,
    before: Wants,
    ps: Seq<Seq<u8>>,
    now: Timestamp,
    p: Seq<u8>,
)
    requires
        explained(d, before, p, now),
    ensures
        explained(d.commits(ps, now), before, p, now),
    decreases ps.len(),
{
    if ps.len() > 0 {
        lemma_commits_explained(d, before, ps.drop_last(), now, p);
        let a = d.commits(ps.drop_last(), now);
        let b = d.commits(ps, now);
        let q = ps.last();
        if q == p && a.list.wants.contains_key(p) {
            let w = a.list.wants[p];
            if b.steps.len() > a.steps.len() && b.list.wants.contains_key(p) {
                assert(b.steps[b.steps.len() - 1] is Commit);
                assert(b.steps[b.steps.len() - 1]->Commit_0 == w);
            }
        }
        if !(q == p) || !b.list.wants.contains_key(p) || b.list.wants[p] == a.list.wants[p] {
            lemma_explained_more(a, b, before, p, now);
        }
    }
}

/// Whatever a dispatch puts into the host's hands it asks for: a want that is being fetched now
/// and was not before is asked of the node that it names, in the version that is wanted, and has a
/// minute; one that is being committed now and was not before is committed as it is wanted, and
/// has half a minute. Nothing of a want changes but its state, and none gives up here.
pub proof fn law_every_turn_is_asked_for(
    s: WantListView,
    now: Timestamp,
    rules: Rules,
    peers: Map<NodeId, Tier>,
    p: Seq<u8>,
)
    ensures
        explained(s.dispatched(now, rules, peers), s.wants, p, now),
{
    lemma_reselected_explained(s, s.paths(), rules, peers, p, now);
    let d0 = Dispatched {
        list: s.reselected(s.wants, s.paths(), rules, peers),
        steps: Seq::empty(),
    };
    lemma_fetches_explained(
        d0,
        s.wants,
        in_order(crate::want::fetch_keys(s.wants, rules, peers)),
        now,
        rules,
        peers,
        p,
    );
    let d = s.fetch_phase(now, rules, peers);
    lemma_commits_explained(d, s.wants, d.list.commit_order(), now, p);
}

/// Whether a path lies below another.
pub open spec fn below(p: Seq<u8>, dir: Seq<u8>) -> bool {
    exists|rest: Seq<u8>| p == dir + seq![47u8] + rest
}

/// A path lies below a directory exactly if it is the directory's path, a slash and something.
pub proof fn law_below_is_ancestry(p: Seq<u8>, dir: Seq<u8>)
    ensures
        ancestor(dir, p) <==> below(p, dir),
{
    if ancestor(dir, p) {
        let rest = p.skip(dir.len() as int + 1);
        assert(p =~= dir + seq![47u8] + rest);
    }
    if below(p, dir) {
        let rest = choose|rest: Seq<u8>| p == dir + seq![47u8] + rest;
        assert(p.take(dir.len() as int) =~= dir);
        assert(p[dir.len() as int] == 47);
    }
}

/// Directories come before what is in them: nothing is written or taken in while a directory above
/// it is still wanted, and no directory is removed while something below it is still to be removed.
pub proof fn law_parents_first_children_last(
    s: WantListView,
    now: Timestamp,
    rules: Rules,
    peers: Map<NodeId, Tier>,
    i: int,
    p: Seq<u8>,
)
    requires
        0 <= i < s.dispatched(now, rules, peers).steps.len(),
        !(s.dispatched(now, rules, peers).steps[i] is Fetch),
        s.dispatched(now, rules, peers).list.wants.contains_key(p),
    ensures
        ({
            let r = s.dispatched(now, rules, peers);
            let w = match r.steps[i] {
                WantStepView::Adopt(x) => x.entry,
                _ => r.steps[i]->Commit_0.entry,
            };
            let e = r.list.wants[p].entry;
            &&& !w.deleted && !e.deleted && e.kind == Kind::Dir ==> !below(w.path, e.path)
            &&& w.deleted && w.kind == Kind::Dir && e.deleted ==> !below(e.path, w.path)
        }),
{
    law_commits_in_order(s, now, rules, peers);
    let r = s.dispatched(now, rules, peers);
    let w = match r.steps[i] {
        WantStepView::Adopt(x) => x.entry,
        _ => r.steps[i]->Commit_0.entry,
    };
    let e = r.list.wants[p].entry;
    law_below_is_ancestry(w.path, e.path);
    law_below_is_ancestry(e.path, w.path);
}

} // verus!
