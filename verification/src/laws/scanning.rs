//! What the host sees of the disk, and what it makes of the index.

use crate::entry::{ContentHash, EntryView, Kind, Observed};
use crate::folder::{DeferredReason, ScanState};
use crate::folder_view::{FolderView, ScannedView, StatusView, WithChanges};
use crate::index::{live_among, ChangeKind, IndexView};
use crate::laws::counting::stands;
use crate::laws::folder::{law_deriving_anew_writes_nothing, lemma_reconsidered_all};
use crate::order::{in_order, increasing, lemma_order_facts, Ordered};
use crate::time::Timestamp;
use crate::want::WantState;
use vstd::prelude::*;

verus! {

// ---- what is recorded -------------------------------------------------------

/// What is recorded of an observation: of a file everything; of a symlink its content, but no
/// time and no executable bit; of a directory that it is one.
pub proof fn law_recorded_by_kind(s: IndexView, path: Seq<u8>, o: Observed)
    ensures
        ({
            let e = s.observed_entry(path, o);
            &&& e.path == path
            &&& e.kind == o.kind
            &&& !e.deleted
            &&& e.modified_by == s.own
            &&& e.author_host == s.host
            &&& o.kind == Kind::File ==> e.size == o.size && e.mtime_ns == o.mtime_ns
                && e.executable == o.executable && e.hash == o.hash
            &&& o.kind == Kind::Symlink ==> e.size == o.size && e.hash == o.hash && e.mtime_ns == 0
                && !e.executable
            &&& o.kind == Kind::Dir ==> e.size == 0 && e.hash == ContentHash::empty()
                && e.mtime_ns == 0 && !e.executable
        }),
{
}

/// Whether an observation shows what a live entry says: the kind, and of a file its size, time,
/// executable bit and content, of a symlink its size and content.
pub open spec fn shows(o: Observed, e: EntryView) -> bool {
    &&& !e.deleted
    &&& e.kind == o.kind
    &&& o.kind == Kind::File ==> e.size == o.size && e.mtime_ns == o.mtime_ns && e.executable
        == o.executable && e.hash == o.hash
    &&& o.kind == Kind::Symlink ==> e.size == o.size && e.hash == o.hash && e.mtime_ns == 0
        && !e.executable
    &&& o.kind == Kind::Dir ==> e.size == 0 && e.hash == ContentHash::empty() && e.mtime_ns == 0
        && !e.executable
}

/// An observation changes the index exactly if the record does not show it already; then it is
/// reported, with the record as it now is, and as an add if peers saw nothing live there, else as
/// a modification.
pub proof fn law_observation_changes_what_differs(s: IndexView, path: Seq<u8>, o: Observed)
    ensures
        ({
            let known = s.records.contains_key(path) && shows(o, s.records[path].entry);
            let t = s.observe(path, o);
            let c = s.observe_change(path, o);
            &&& known ==> t == s && c is None
            &&& !known ==> {
                &&& c is Some
                &&& t.records == s.records.insert(path, (c->0).record)
                &&& shows(o, (c->0).record.entry)
                &&& (c->0).record.entry.path == path
                &&& (c->0).kind == if seen_there(s, path) {
                    ChangeKind::Modify
                } else {
                    ChangeKind::Add
                }
                &&& t.own == s.own && t.host == s.host && t.peer_seq == s.peer_seq
                &&& t.announced_seq == s.announced_seq
                &&& t.announced_tracked == s.announced_tracked
                &&& !t.exempt.contains(path)
                &&& t.pending.contains_key(path)
                &&& forall|p: Seq<u8>|
                    p != path ==> t.exempt.contains(p) == s.exempt.contains(p)
                        && t.pending.contains_key(p) == s.pending.contains_key(p) && (
                    s.pending.contains_key(p) ==> #[trigger] t.pending[p] == s.pending[p])
                &&& t.pending[path] == if s.pending.contains_key(path) {
                    s.pending[path]
                } else if s.records.contains_key(path) {
                    Some(s.records[path])
                } else {
                    None
                }
            }
        }),
{
}

/// Whether peers last saw something live at a path.
pub open spec fn seen_there(s: IndexView, path: Seq<u8>) -> bool {
    if s.pending.contains_key(path) {
        s.pending[path] is Some && !(s.pending[path]->0).entry.deleted
    } else {
        s.records.contains_key(path) && !s.records[path].entry.deleted
    }
}

/// Nothing at a path with a live record is a deletion: a tombstone of the same kind, without
/// content, at the time it was found, reported as a deletion. Where no live record is, nothing
/// found changes nothing.
pub proof fn law_absence_is_a_deletion(s: IndexView, path: Seq<u8>, at_ns: i64)
    ensures
        ({
            let t = s.observe_absent(path, at_ns);
            let c = s.absent_change(path, at_ns);
            if stands(s, path) {
                let e = (c->0).record.entry;
                &&& c is Some
                &&& (c->0).kind == ChangeKind::Delete
                &&& t.records == s.records.insert(path, (c->0).record)
                &&& e.path == path
                &&& e.deleted
                &&& e.kind == s.records[path].entry.kind
                &&& e.size == 0
                &&& e.mtime_ns == at_ns
                &&& !e.executable
                &&& e.hash == ContentHash::empty()
                &&& e.modified_by == s.own
                &&& e.author_host == s.host
                &&& !t.exempt.contains(path)
                &&& t.pending.contains_key(path)
                &&& s.observe_lost(path, at_ns).records == t.records
                &&& s.observe_lost(path, at_ns).pending == t.pending
                &&& s.observe_lost(path, at_ns).exempt == t.exempt.insert(path)
            } else {
                &&& c is None
                &&& t == s
                &&& s.observe_lost(path, at_ns) == s
            }
        }),
{
}

/// What a change replaced, and how it ranks: its hash of before is what peers last saw there, and
/// its stamp is above that of the record it replaces; a file that was edited takes the time of its
/// edit if that is later, one that was only touched does not.
pub proof fn law_changes_rank(s: IndexView, path: Seq<u8>, o: Observed, at_ns: i64)
    ensures
        ({
            let e = s.observed_entry(path, o);
            let seen = if s.pending.contains_key(path) {
                s.pending[path]
            } else if s.records.contains_key(path) {
                Some(s.records[path])
            } else {
                None
            };
            let old = s.records[path].entry;
            let hash = match seen {
                Some(r) => r.entry.hash,
                None => ContentHash::empty(),
            };
            &&& e.prev_hash == hash
            &&& s.tombstone(path, at_ns).prev_hash == hash
            &&& !s.records.contains_key(path) ==> e.stamp == e.mtime_ns
            &&& s.records.contains_key(path) && old.stamp < i64::MAX ==> {
                &&& s.tombstone(path, at_ns).stamp == old.stamp + 1
                &&& !old.deleted && old.kind == e.kind && old.hash == e.hash && old.executable
                    == e.executable ==> e.stamp == old.stamp + 1
                &&& !(!old.deleted && old.kind == e.kind && old.hash == e.hash && old.executable
                    == e.executable) ==> e.stamp == if e.mtime_ns > old.stamp {
                    e.mtime_ns as int
                } else {
                    old.stamp + 1
                }
            }
        }),
{
}

// ---- one report -------------------------------------------------------------

/// Whether an operation of the host on a path is under way, or about to be.
pub open spec fn busy(f: FolderView, p: Seq<u8>) -> bool {
    f.wants.wants.contains_key(p) && match f.wants.wants[p].state {
        WantState::Wanted => true,
        WantState::Blocked => true,
        WantState::Fetching { from, deadline } => true,
        WantState::Committing { deadline } => true,
        WantState::Deferred { need } => false,
        WantState::NoSource => false,
        WantState::GaveUp => false,
    }
}

/// Whether a revert moved the file at a path away and asked for another.
pub open spec fn coming_back(f: FolderView, p: Seq<u8>) -> bool {
    f.wants.wants.contains_key(p) && f.wants.wants[p].restoring
}

/// A report on a path marks it as seen. It is passed over where the host is at work, or where a
/// revert moved the file away and it is reported gone. That a path is unchanged which no live
/// record stands at is answered so. Anything else is taken into the index, opens or extends the
/// window if it changed something, and is reported; then what is wanted there is judged against the
/// changed record, and what waited for the path to be looked at is let in.
pub proof fn law_report_on_a_path(f: FolderView, now: Timestamp, path: Seq<u8>, state: ScanState)
    ensures
        ({
            let g = f.scanned(now, path, state);
            let r = f.scan_result(now, path, state);
            let over = busy(f, path) || (state is Absent && coming_back(f, path));
            &&& f.scan is None ==> g.scan is None
            &&& f.scan is Some ==> g.scan is Some && forall|p: Seq<u8>|
                (g.scan->0).contains(p) <==> (f.scan->0).contains(p) || p == path
            &&& over ==> g == (FolderView { scan: g.scan, ..f }) && r == (ScannedView {
                change: None,
                status: None,
            })
            &&& !over && state is Unchanged && !stands(f.index, path) ==> g == (FolderView {
                scan: g.scan,
                ..f
            }) && r == (ScannedView {
                change: None,
                status: Some(StatusView::UnchangedUnknownPath { path }),
            })
            &&& !over && state is Unchanged && stands(f.index, path) ==> g.index == f.index
                && g.window == f.window && r == (ScannedView { change: None, status: None })
            &&& !over && state is Observed ==> g.index == f.index.observe(
                path,
                state->Observed_0,
            ) && r == (ScannedView {
                change: f.index.observe_change(path, state->Observed_0),
                status: None,
            })
            &&& !over && state is Absent ==> g.index == f.index.observe_absent(path, now.0) && r
                == (ScannedView {
                change: f.index.absent_change(path, now.0),
                status: None,
            })
            &&& g.window == if r.change is Some {
                f.touched(now).window
            } else {
                f.window
            }
            &&& !over && (state is Unchanged ==> stands(f.index, path)) ==> {
                let s = FolderView { scan: g.scan, index: g.index, ..f };
                g == (if r.change is Some {
                    s.touched(now).reclassified(now, path)
                } else {
                    s
                }).reconsidered(now, path, DeferredReason::ChangedUnderneath)
            }
        }),
{
    let s = f.seen(path);
    let t = FolderView { index: f.scan_index(now, path, state), ..s };
    law_deriving_anew_writes_nothing(
        t.touched(now),
        now,
        path,
        DeferredReason::ChangedUnderneath,
    );
    law_deriving_anew_writes_nothing(
        t.touched(now).reclassified(now, path),
        now,
        path,
        DeferredReason::ChangedUnderneath,
    );
    law_deriving_anew_writes_nothing(t, now, path, DeferredReason::ChangedUnderneath);
}

// ---- the end of a scan ------------------------------------------------------

/// Whether the end of a scan finds a path gone: something live is recorded there, of whatever
/// kind, that the scan did not report; the host is not at work there, and no revert moved it away.
pub open spec fn found_gone(f: FolderView, p: Seq<u8>) -> bool {
    f.scan is Some && stands(f.index, p) && !(f.scan->0).contains(p) && !busy(f, p)
        && !coming_back(f, p)
}

proof fn lemma_gone_among(f: FolderView, ks: Seq<Seq<u8>>, seen: Set<Seq<u8>>)
    requires
        increasing(ks),
        forall|i: int|
            0 <= i < ks.len() ==> f.index.records.contains_key(#[trigger] ks[i])
                && f.index.records[ks[i]].entry.path == ks[i],
    ensures
        ({
            let g = f.gone_among(live_among(f.index.records, ks), seen);
            &&& increasing(g)
            &&& forall|p: Seq<u8>| #[trigger]
                g.contains(p) <==> ks.contains(p) && stands(f.index, p) && !seen.contains(p)
                    && !busy(f, p) && !coming_back(f, p)
        }),
    decreases ks.len(),
{
    if ks.len() > 0 {
        let t = ks.drop_last();
        let x = ks[ks.len() - 1];
        assert forall|i: int| 0 <= i < t.len() implies f.index.records.contains_key(#[trigger] t[i])
            && f.index.records[t[i]].entry.path == t[i] by {
            assert(t[i] == ks[i]);
        }
        lemma_gone_among(f, t, seen);
        let lt = live_among(f.index.records, t);
        let lk = live_among(f.index.records, ks);
        let a = f.gone_among(lt, seen);
        let b = f.gone_among(lk, seen);
        assert(f.index.records[ks[ks.len() - 1]].entry.path == x);
        if !f.index.records[x].entry.deleted {
            assert(lk.drop_last() =~= lt);
        }
        let in_x = stands(f.index, x) && !seen.contains(x) && !busy(f, x) && !coming_back(f, x);
        assert(b == if in_x {
            a.push(x)
        } else {
            a
        });
        assert forall|p: Seq<u8>| #[trigger] ks.contains(p) <==> t.contains(p) || p == x by {
            if ks.contains(p) {
                let i = choose|i: int| 0 <= i < ks.len() && ks[i] == p;
                if i < t.len() {
                    assert(t[i] == p);
                }
            }
            if t.contains(p) {
                let i = choose|i: int| 0 <= i < t.len() && t[i] == p;
                assert(ks[i] == p);
            }
        }
        assert forall|p: Seq<u8>| #[trigger] b.contains(p) <==> a.contains(p) || (in_x && p == x) by {
            if b.contains(p) {
                let i = choose|i: int| 0 <= i < b.len() && b[i] == p;
                if i < a.len() {
                    assert(a[i] == p);
                }
            }
            if a.contains(p) {
                let i = choose|i: int| 0 <= i < a.len() && a[i] == p;
                assert(b[i] == p);
            }
            if in_x {
                assert(b[b.len() - 1] == x);
            }
        }
        assert forall|i: int, j: int| 0 <= i < j < b.len() implies #[trigger] b[i].before(
            #[trigger] b[j],
        ) by {
            assert(b[i] == a[i]);
            if j < a.len() {
                assert(b[j] == a[j]);
            } else {
                assert(a.contains(a[i]));
                let k = choose|k: int| 0 <= k < t.len() && t[k] == a[i];
                assert(ks[k].before(ks[ks.len() - 1]));
            }
        }
    }
}

proof fn lemma_vanished_all(w: WithChanges, now: Timestamp, ps: Seq<Seq<u8>>, p: Seq<u8>)
    requires
        ps.no_duplicates(),
        forall|i: int| 0 <= i < ps.len() ==> stands(w.folder.index, #[trigger] ps[i]),
    ensures
        ({
            let v = w.vanished_all(now, ps);
            let g = v.folder.index;
            &&& v.changes.len() == w.changes.len() + ps.len()
            &&& forall|i: int|
                0 <= i < ps.len() ==> (#[trigger] v.changes[w.changes.len()
                    + i]).record.entry.path == ps[i] && v.changes[w.changes.len()
                    + i].record.entry.deleted && v.changes[w.changes.len() + i].kind
                    == ChangeKind::Delete
            &&& ps.contains(p) ==> g.records.contains_key(p) && g.records[p].entry.deleted
                && g.records[p].entry.kind == w.folder.index.records[p].entry.kind
            &&& !ps.contains(p) ==> g.records.contains_key(p)
                == w.folder.index.records.contains_key(p) && g.records[p]
                == w.folder.index.records[p]
        }),
    decreases ps.len(),
{
    if ps.len() > 0 {
        let t = ps.drop_last();
        let x = ps[ps.len() - 1];
        assert forall|i: int| 0 <= i < t.len() implies stands(w.folder.index, #[trigger] t[i]) by {
            assert(t[i] == ps[i]);
        }
        lemma_vanished_all(w, now, t, p);
        lemma_vanished_all(w, now, t, x);
        assert(!t.contains(x)) by {
            if t.contains(x) {
                let i = choose|i: int| 0 <= i < t.len() && t[i] == x;
                assert(ps[i] == ps[ps.len() - 1]);
            }
        }
        assert(stands(w.folder.index, ps[ps.len() - 1]));
        let m = w.vanished_all(now, t);
        let s = m.folder;
        law_absence_is_a_deletion(s.index, x, now.0);
        let a = FolderView { index: s.index.observe_absent(x, now.0), ..s };
        law_deriving_anew_writes_nothing(a, now, x, DeferredReason::ChangedUnderneath);
        law_deriving_anew_writes_nothing(
            a.reclassified(now, x),
            now,
            x,
            DeferredReason::ChangedUnderneath,
        );
        let v = w.vanished_all(now, ps);
        assert(v.folder.index == a.index);
        assert(ps.contains(p) <==> t.contains(p) || p == x) by {
            if ps.contains(p) {
                let i = choose|i: int| 0 <= i < ps.len() && ps[i] == p;
                if i < t.len() {
                    assert(t[i] == p);
                }
            }
            if t.contains(p) {
                let i = choose|i: int| 0 <= i < t.len() && t[i] == p;
                assert(ps[i] == p);
            }
        }
        assert forall|i: int| 0 <= i < ps.len() implies (#[trigger] v.changes[w.changes.len()
            + i]).record.entry.path == ps[i] && v.changes[w.changes.len() + i].record.entry.deleted
            && v.changes[w.changes.len() + i].kind == ChangeKind::Delete by {
            if i < t.len() {
                assert(v.changes[w.changes.len() + i] == m.changes[w.changes.len() + i]);
                assert(t[i] == ps[i]);
            }
        }
    }
}

/// At the end of a scan every path that is found gone gets a tombstone, whatever its kind, and is
/// reported, once, in the order of paths; every other path keeps its record and is not reported.
/// The window opens if there was any.
pub proof fn law_scan_end_exactly(f: FolderView, now: Timestamp, p: Seq<u8>)
    requires
        f.index.well_formed(),
        f.scan is Some,
    ensures
        ({
            let g = f.scan_finished(now);
            let changes = f.scan_swept(now, f.scan->0).changes;
            &&& g.scan is None
            &&& found_gone(f, p) ==> g.index.records.contains_key(p)
                && g.index.records[p].entry.deleted && g.index.records[p].entry.kind
                == f.index.records[p].entry.kind
            &&& !found_gone(f, p) ==> g.index.records.contains_key(p)
                == f.index.records.contains_key(p) && (f.index.records.contains_key(p)
                ==> g.index.records[p] == f.index.records[p])
            &&& found_gone(f, p) <==> exists|i: int|
                0 <= i < changes.len() && (#[trigger] changes[i]).record.entry.path == p
            &&& forall|i: int|
                0 <= i < changes.len() ==> (#[trigger] changes[i]).record.entry.deleted
                    && changes[i].kind == ChangeKind::Delete
            &&& forall|i: int, j: int|
                0 <= i < j < changes.len() ==> (#[trigger] changes[i]).record.entry.path.before(
                    (#[trigger] changes[j]).record.entry.path,
                )
            &&& g.window == if changes.len() > 0 {
                f.touched(now).window
            } else {
                f.window
            }
        }),
{
    let seen = f.scan->0;
    let s = FolderView { scan: None, ..f };
    let ks = in_order(s.index.records.dom());
    lemma_order_facts(s.index.records.dom());
    assert forall|i: int| 0 <= i < ks.len() implies s.index.records.contains_key(#[trigger] ks[i])
        && s.index.records[ks[i]].entry.path == ks[i] by {
        assert(s.index.records.dom().contains(ks[i]));
    }
    lemma_gone_among(s, ks, seen);
    let gone = s.gone_among(live_among(s.index.records, ks), seen);
    crate::order::lemma_increasing_distinct(gone);
    assert(s.index.records.dom().contains(p) <==> ks.contains(p));
    assert(found_gone(f, p) <==> gone.contains(p));
    assert forall|i: int| 0 <= i < gone.len() implies stands(s.index, #[trigger] gone[i]) by {
        assert(gone.contains(gone[i]));
    }
    let w0 = WithChanges { folder: s, changes: Seq::empty() };
    lemma_vanished_all(w0, now, gone, p);
    lemma_vanished_window(w0, now, gone);
    let w = f.scan_swept(now, seen);
    let t = w.folder;
    lemma_reconsidered_all(t, now, t.unseen_among(in_order(t.deferred.dom()), seen));
    let changes = w.changes;
    assert forall|i: int| 0 <= i < changes.len() implies (#[trigger] changes[i]).record.entry.path
        == gone[i] && changes[i].record.entry.deleted && changes[i].kind == ChangeKind::Delete by {
        assert(changes[0 + i].record.entry.path == gone[i]);
    }
    if gone.contains(p) {
        let i = choose|i: int| 0 <= i < gone.len() && gone[i] == p;
        assert(changes[i].record.entry.path == p);
    }
    if exists|i: int| 0 <= i < changes.len() && (#[trigger] changes[i]).record.entry.path == p {
        let i = choose|i: int|
            0 <= i < changes.len() && (#[trigger] changes[i]).record.entry.path == p;
        assert(gone[i] == p);
    }
    assert forall|i: int, j: int| 0 <= i < j < changes.len() implies (
    #[trigger] changes[i]).record.entry.path.before((#[trigger] changes[j]).record.entry.path) by {
        assert(gone[i].before(gone[j]));
    }
}

proof fn lemma_vanished_window(w: WithChanges, now: Timestamp, ps: Seq<Seq<u8>>)
    ensures
        w.vanished_all(now, ps).folder.window == w.folder.window,
        w.vanished_all(now, ps).folder.scan == w.folder.scan,
    decreases ps.len(),
{
    if ps.len() > 0 {
        let x = ps.last();
        lemma_vanished_window(w, now, ps.drop_last());
        let s = w.vanished_all(now, ps.drop_last()).folder;
        let a = FolderView { index: s.index.observe_absent(x, now.0), ..s };
        law_deriving_anew_writes_nothing(a, now, x, DeferredReason::ChangedUnderneath);
        law_deriving_anew_writes_nothing(
            a.reclassified(now, x),
            now,
            x,
            DeferredReason::ChangedUnderneath,
        );
        law_deriving_anew_writes_nothing(s, now, x, DeferredReason::ChangedUnderneath);
    }
}

/// What waits at a path is looked at again at the end of a scan if the scan did not report the
/// path, nothing live is recorded there and the host is not at work there.
pub proof fn law_waiting_is_looked_at_again(
    f: FolderView,
    ks: Seq<Seq<u8>>,
    seen: Set<Seq<u8>>,
    p: Seq<u8>,
)
    ensures
        f.unseen_among(ks, seen).contains(p) <==> ks.contains(p) && !seen.contains(p) && !stands(
            f.index,
            p,
        ) && !busy(f, p),
    decreases ks.len(),
{
    if ks.len() > 0 {
        let t = ks.drop_last();
        let x = ks.last();
        law_waiting_is_looked_at_again(f, t, seen, p);
        let a = f.unseen_among(t, seen);
        let b = f.unseen_among(ks, seen);
        assert(ks[ks.len() - 1] == x);
        if ks.contains(p) {
            let i = choose|i: int| 0 <= i < ks.len() && ks[i] == p;
            if i < t.len() {
                assert(t[i] == p);
            }
        }
        if t.contains(p) {
            let i = choose|i: int| 0 <= i < t.len() && t[i] == p;
            assert(ks[i] == p);
        }
        if b.contains(p) {
            let i = choose|i: int| 0 <= i < b.len() && b[i] == p;
            if i < a.len() {
                assert(a[i] == p);
            }
        }
        if a.contains(p) {
            let i = choose|i: int| 0 <= i < a.len() && a[i] == p;
            assert(b[i] == p);
        }
        if b.len() > a.len() {
            assert(b[b.len() - 1] == x);
        }
    }
}

/// A path that is found gone is deleted from the index, what is wanted there is judged against the
/// tombstone, and what waited for the path to be looked at is let in; where nothing live is recorded
/// any more only the last is done.
pub proof fn law_one_path_gone(w: WithChanges, now: Timestamp, path: Seq<u8>)
    ensures
        ({
            let s = w.folder;
            let r = w.vanished(now, path);
            if stands(s.index, path) {
                &&& r.changes == w.changes.push(s.index.absent_change(path, now.0)->0)
                &&& r.folder == FolderView {
                    index: s.index.observe_absent(path, now.0),
                    ..s
                }.reclassified(now, path).reconsidered(
                    now,
                    path,
                    DeferredReason::ChangedUnderneath,
                )
            } else {
                &&& r.changes == w.changes
                &&& r.folder == s.reconsidered(now, path, DeferredReason::ChangedUnderneath)
            }
        }),
{
}

/// At the end of a scan, once the paths that are gone were dealt with, what waits at other paths
/// that the scan did not report and where nothing stands is let in too.
pub proof fn law_scan_end_lets_in(f: FolderView, now: Timestamp)
    requires
        f.scan is Some,
    ensures
        ({
            let w = f.scan_swept(now, f.scan->0);
            let u = w.folder.reconsidered_all(
                now,
                w.folder.unseen_among(in_order(w.folder.deferred.dom()), f.scan->0),
            );
            f.scan_finished(now) == if w.changes.len() > 0 {
                u.touched(now)
            } else {
                u
            }
        }),
{
}

} // verus!
