//! What an index says of its paths, and what each kind of write leaves there.

use crate::batch::{classified, fallbacks_among};
use crate::entry::{ContentHash, EntryView, Kind, Observed};
use crate::folder_view::{
    fallbacks_of, frozen_among, joined_statuses, thawed, DeferredView, FolderView, StatusView,
};
use crate::folder::{waiting_among, DeferredReason};
use crate::id::{BatchId, NodeId};
use crate::index::{
    holding_among, join_all, live_among, pending_among, since_among, ChangeKind, IndexView,
    RecordView, WatermarkView,
};
use crate::laws::counting::{held_at_end, stands};
use crate::laws::scanning::seen_there;
use crate::rules::Rules;
use crate::version::{counter_of, raise, vector_of, Vector};
use crate::want::{distinct, WantView};
use vstd::prelude::*;

verus! {

// ---- what an index says -----------------------------------------------------

/// What an index says of a path: its record, if there is one; whether it is alive; what peers last
/// saw there, which is what stood there before the first change that they have not heard of.
pub proof fn law_lookups(s: IndexView, p: Seq<u8>)
    ensures
        s.get(p) is Some <==> s.records.contains_key(p),
        s.get(p) is Some ==> s.get(p)->0 == s.records[p],
        s.live(p) is Some <==> stands(s, p),
        s.live(p) is Some ==> s.live(p)->0 == s.records[p],
        s.pending.contains_key(p) ==> s.last_seen(p) == s.pending[p],
        !s.pending.contains_key(p) ==> s.last_seen(p) == s.get(p),
        s.seen_live(p) <==> seen_there(s, p),
        s.seen_hash(p) == if s.last_seen(p) is Some {
            (s.last_seen(p)->0).entry.hash
        } else {
            ContentHash::empty()
        },
        forall|n: NodeId| #[trigger]
            counter_of(s.version_at(p), n) == if s.records.contains_key(p) {
                counter_of(s.records[p].entry.version, n)
            } else {
                0
            },
        s.pending_kind(p) is Some <==> s.pending.contains_key(p) && s.records.contains_key(p),
        s.pending_kind(p) is Some ==> s.pending_kind(p)->0 == if s.records[p].entry.deleted {
            ChangeKind::Delete
        } else if seen_there(s, p) {
            ChangeKind::Modify
        } else {
            ChangeKind::Add
        },
        s.counted_kind(p) == if s.exempt.contains(p) {
            None
        } else {
            s.pending_kind(p)
        },
{
}

/// A counter that is stored is what it says, and one that is not is zero.
pub proof fn law_counters(v: Vector, n: NodeId)
    ensures
        v.contains_key(n) ==> counter_of(v, n) == v[n],
        !v.contains_key(n) ==> counter_of(v, n) == 0,
        counter_of(raise(v, n), n) == if counter_of(v, n) < u64::MAX {
            counter_of(v, n) + 1
        } else {
            u64::MAX as int
        },
        forall|m: NodeId| m != n ==> #[trigger] counter_of(raise(v, n), m) == counter_of(v, m),
{
}

/// The records of some paths that are alive, the ones with a number above another, and the paths
/// from which content can be had: those of files and symlinks that are there with that hash, but
/// for one.
pub proof fn law_listings(
    m: Map<Seq<u8>, RecordView>,
    ks: Seq<Seq<u8>>,
    after: u64,
    hash: ContentHash,
    but: Seq<u8>,
)
    ensures
        live_among(m, ks) == ks.filter(|p: Seq<u8>| !m[p].entry.deleted).map_values(
            |p: Seq<u8>| m[p],
        ),
        since_among(m, ks, after) == ks.filter(|p: Seq<u8>| m[p].seq > after).map_values(
            |p: Seq<u8>| m[p],
        ),
        holding_among(m, ks, hash, but) == ks.filter(
            |p: Seq<u8>|
                p != but && !m[p].entry.deleted && m[p].entry.kind != Kind::Dir && m[p].entry.hash
                    == hash,
        ).map_values(|p: Seq<u8>| m[p].entry.path),
    decreases ks.len(),
{
    reveal(Seq::filter);
    let f = |p: Seq<u8>| !m[p].entry.deleted;
    let g = |p: Seq<u8>| m[p].seq > after;
    let h = |p: Seq<u8>|
        p != but && !m[p].entry.deleted && m[p].entry.kind != Kind::Dir && m[p].entry.hash == hash;
    let r = |p: Seq<u8>| m[p];
    let q = |p: Seq<u8>| m[p].entry.path;
    if ks.len() == 0 {
        assert(ks.filter(f).map_values(r) =~= live_among(m, ks));
        assert(ks.filter(g).map_values(r) =~= since_among(m, ks, after));
        assert(ks.filter(h).map_values(q) =~= holding_among(m, ks, hash, but));
    } else {
        let t = ks.drop_last();
        let x = ks.last();
        law_listings(m, t, after, hash, but);
        assert(t.filter(f).push(x).map_values(r) =~= t.filter(f).map_values(r).push(m[x]));
        assert(t.filter(g).push(x).map_values(r) =~= t.filter(g).map_values(r).push(m[x]));
        assert(t.filter(h).push(x).map_values(q) =~= t.filter(h).map_values(q).push(
            m[x].entry.path,
        ));
    }
}

/// The changes that wait to be announced at some paths are those that are pending there, each with
/// its record and what it is to peers.
pub proof fn law_pending_listed(s: IndexView, ks: Seq<Seq<u8>>, x: (RecordView, ChangeKind))
    ensures
        pending_among(s, ks).contains(x) <==> exists|i: int|
            0 <= i < ks.len() && s.pending.contains_key(#[trigger] ks[i])
                && s.records.contains_key(ks[i]) && x == (
                s.records[ks[i]],
                if s.records[ks[i]].entry.deleted {
                    ChangeKind::Delete
                } else if seen_there(s, ks[i]) {
                    ChangeKind::Modify
                } else {
                    ChangeKind::Add
                },
            ),
    decreases ks.len(),
{
    if ks.len() > 0 {
        let t = ks.drop_last();
        let z = ks.len() - 1;
        law_pending_listed(s, t, x);
        law_lookups(s, ks.last());
        assert(ks[z] == ks.last());
        assert forall|i: int| 0 <= i < t.len() implies t[i] == #[trigger] ks[i] by {}
        let a = pending_among(s, t);
        let b = pending_among(s, ks);
        if b.contains(x) {
            let i = choose|i: int| 0 <= i < b.len() && b[i] == x;
            if i < a.len() {
                assert(a[i] == x);
                let j = choose|j: int|
                    0 <= j < t.len() && s.pending.contains_key(#[trigger] t[j])
                        && s.records.contains_key(t[j]) && x == (
                        s.records[t[j]],
                        if s.records[t[j]].entry.deleted {
                            ChangeKind::Delete
                        } else if seen_there(s, t[j]) {
                            ChangeKind::Modify
                        } else {
                            ChangeKind::Add
                        },
                    );
                assert(ks[j] == t[j]);
            }
        }
        if a.contains(x) {
            let i = choose|i: int| 0 <= i < a.len() && a[i] == x;
            assert(b[i] == x);
        }
        if b.len() > a.len() {
            assert(b[b.len() - 1] == b.last());
        }
        if exists|i: int|
            0 <= i < ks.len() && s.pending.contains_key(#[trigger] ks[i])
                && s.records.contains_key(ks[i]) && x == (
                s.records[ks[i]],
                if s.records[ks[i]].entry.deleted {
                    ChangeKind::Delete
                } else if seen_there(s, ks[i]) {
                    ChangeKind::Modify
                } else {
                    ChangeKind::Add
                },
            ) {
            let i = choose|i: int|
                0 <= i < ks.len() && s.pending.contains_key(#[trigger] ks[i])
                    && s.records.contains_key(ks[i]) && x == (
                    s.records[ks[i]],
                    if s.records[ks[i]].entry.deleted {
                        ChangeKind::Delete
                    } else if seen_there(s, ks[i]) {
                        ChangeKind::Modify
                    } else {
                        ChangeKind::Add
                    },
                );
            if i < t.len() {
                assert(t[i] == ks[i]);
            }
        }
    }
}

// ---- writing ----------------------------------------------------------------

/// A local change puts its entry at its path under the next number. What peers last saw there is
/// noted at the first change and stays noted; the change counts, whatever it replaces. Nothing
/// else changes.
pub proof fn law_writing(s: IndexView, e: EntryView)
    ensures
        ({
            let t = s.written(e);
            &&& s.seq < u64::MAX ==> t.seq == s.seq + 1
            &&& t.records == s.records.insert(e.path, RecordView { entry: e, seq: t.seq })
            &&& t.pending.contains_key(e.path)
            &&& t.pending[e.path] == if s.pending.contains_key(e.path) {
                s.pending[e.path]
            } else if s.records.contains_key(e.path) {
                Some(s.records[e.path])
            } else {
                None
            }
            &&& forall|p: Seq<u8>|
                p != e.path ==> (#[trigger] t.pending.contains_key(p)) == s.pending.contains_key(p)
                    && t.pending[p] == s.pending[p]
            &&& t.exempt == s.exempt.remove(e.path)
            &&& t == (IndexView {
                seq: t.seq,
                records: t.records,
                pending: t.pending,
                exempt: t.exempt,
                ..s
            })
            &&& s.change(e).record == t.records[e.path]
            &&& s.change(e).kind == if e.deleted {
                ChangeKind::Delete
            } else if seen_there(s, e.path) {
                ChangeKind::Modify
            } else {
                ChangeKind::Add
            }
        }),
{
}

proof fn lemma_join_all(base: Vector, over: Seq<Vector>, n: NodeId)
    ensures
        counter_of(join_all(base, over), n) >= counter_of(base, n),
        forall|i: int|
            0 <= i < over.len() ==> counter_of(join_all(base, over), n) >= counter_of(
                #[trigger] over[i],
                n,
            ),
        counter_of(join_all(base, over), n) == counter_of(base, n) || exists|i: int|
            0 <= i < over.len() && counter_of(join_all(base, over), n) == counter_of(
                #[trigger] over[i],
                n,
            ),
    decreases over.len(),
{
    if over.len() > 0 {
        let t = over.drop_last();
        let z = over.len() - 1;
        lemma_join_all(base, t, n);
        assert(over[z] == over.last());
        assert forall|i: int| 0 <= i < over.len() implies counter_of(join_all(base, over), n)
            >= counter_of(#[trigger] over[i], n) by {
            if i < t.len() {
                assert(t[i] == over[i]);
            }
        }
        if counter_of(join_all(base, over), n) != counter_of(over[z], n) && counter_of(
            join_all(base, t),
            n,
        ) != counter_of(base, n) {
            let i = choose|i: int|
                0 <= i < t.len() && counter_of(join_all(base, t), n) == counter_of(
                    #[trigger] t[i],
                    n,
                );
            assert(over[i] == t[i]);
        }
    }
}

/// A bump keeps what is there, or puts a tombstone where nothing is, under a version with, for
/// every node, the largest counter of the record and of everything it is made over, this machine's
/// raised by one; it is this machine's work, above every stamp it is made over, and says what peers
/// last saw.
pub proof fn law_bump_exactly(
    s: IndexView,
    path: Seq<u8>,
    over: Seq<Vector>,
    over_stamp: Option<i64>,
    at_ns: i64,
    n: NodeId,
)
    requires
        counter_of(join_all(s.version_at(path), over), s.own) < u64::MAX,
    ensures
        ({
            let e = s.bumped_entry(path, over, over_stamp, at_ns);
            let r = s.records[path].entry;
            let c = counter_of(e.version, n) - if n == s.own {
                1int
            } else {
                0
            };
            &&& c >= counter_of(s.version_at(path), n)
            &&& forall|i: int| 0 <= i < over.len() ==> c >= counter_of(#[trigger] over[i], n)
            &&& c == counter_of(s.version_at(path), n) || exists|i: int|
                0 <= i < over.len() && c == counter_of(#[trigger] over[i], n)
            &&& e.path == path
            &&& e.modified_by == s.own
            &&& e.author_host == s.host
            &&& e.prev_hash == s.seen_hash(path)
            &&& s.records.contains_key(path) ==> e.kind == r.kind && e.size == r.size && e.mtime_ns
                == r.mtime_ns && e.executable == r.executable && e.hash == r.hash && e.deleted
                == r.deleted
            &&& !s.records.contains_key(path) ==> e.deleted && e.kind == Kind::File && e.size == 0
                && e.mtime_ns == at_ns && !e.executable && e.hash == ContentHash::empty()
            &&& over_stamp is None && !s.records.contains_key(path) ==> e.stamp == at_ns
            &&& over_stamp is Some && !s.records.contains_key(path) && over_stamp->0 < i64::MAX
                ==> e.stamp == over_stamp->0 + 1
            &&& s.records.contains_key(path) && r.stamp < i64::MAX && (over_stamp is Some
                ==> over_stamp->0 < i64::MAX) ==> e.stamp == 1 + if over_stamp is Some
                && over_stamp->0 >= r.stamp {
                over_stamp->0
            } else {
                r.stamp
            }
        }),
{
    lemma_join_all(s.version_at(path), over, n);
    law_counters(join_all(s.version_at(path), over), s.own);
}

/// A conflict copy has the losing content under a name of its own, as a change of this machine:
/// its version goes on from what was there, and its stamp is that of the loser, or above what was
/// there if that is later.
pub proof fn law_copy_exactly(s: IndexView, path: Seq<u8>, loser: EntryView)
    ensures
        ({
            let e = s.copy_entry(path, loser);
            &&& e.path == path
            &&& e.kind == loser.kind
            &&& e.size == loser.size
            &&& e.mtime_ns == loser.mtime_ns
            &&& e.executable == loser.executable
            &&& e.hash == loser.hash
            &&& !e.deleted
            &&& e.modified_by == s.own
            &&& e.author_host == s.host
            &&& e.prev_hash == s.seen_hash(path)
            &&& e.version == raise(s.version_at(path), s.own)
            &&& !s.records.contains_key(path) ==> e.stamp == loser.stamp
            &&& s.records.contains_key(path) && s.records[path].entry.stamp < i64::MAX ==> e.stamp
                == if loser.stamp > s.records[path].entry.stamp {
                loser.stamp as int
            } else {
                s.records[path].entry.stamp + 1
            }
        }),
{
}

/// A local change and a deletion go on from the version that is there, with this machine's counter
/// raised.
pub proof fn law_versions_go_on(s: IndexView, path: Seq<u8>, o: Observed, at_ns: i64)
    ensures
        s.observed_entry(path, o).version == raise(s.version_at(path), s.own),
        s.records.contains_key(path) ==> s.tombstone(path, at_ns).version == raise(
            s.version_at(path),
            s.own,
        ),
{
}

/// Undoing every pending change leaves at each path what peers last saw, and nothing where they
/// saw nothing; what was never changed stays.
pub proof fn law_undoing(s: IndexView, p: Seq<u8>)
    ensures
        ({
            let t = s.reverted();
            &&& s.pending.contains_key(p) ==> (t.records.contains_key(p) <==> s.pending[p] is Some)
                && (s.pending[p] is Some ==> t.records[p] == s.pending[p]->0)
            &&& !s.pending.contains_key(p) ==> t.records.contains_key(p) == s.records.contains_key(
                p,
            ) && (s.records.contains_key(p) ==> t.records[p] == s.records[p])
            &&& t.pending.dom() =~= Set::empty()
            &&& t.exempt =~= Set::empty()
            &&& t == (IndexView {
                records: t.records,
                pending: t.pending,
                exempt: t.exempt,
                ..s
            })
        }),
{
}

// ---- ranges -----------------------------------------------------------------

/// No range that touches what is held without a gap is left over: whatever arrives, the next
/// number after it is one that has not.
pub proof fn law_no_range_is_left_behind(w: WatermarkView, low: u64, high: u64)
    requires
        w.ranges.dom().finite(),
        forall|l: u64| #[trigger] w.ranges.contains_key(l) ==> l > w.contiguous,
    ensures
        ({
            let r = w.received(low, high);
            &&& forall|l: u64| #[trigger] r.ranges.contains_key(l) ==> l > r.contiguous
            &&& !r.covers(r.contiguous + 1)
        }),
{
    if high <= w.contiguous {
    } else if low <= w.contiguous {
        crate::index::lemma_absorbed(WatermarkView { contiguous: high, ..w });
    } else {
        crate::index::lemma_absorbed(
            WatermarkView {
                ranges: w.ranges.insert(
                    low,
                    if w.ranges.contains_key(low) && w.ranges[low] > high {
                        w.ranges[low]
                    } else {
                        high
                    },
                ),
                ..w
            },
        );
    }
}

// ---- counts and lists -------------------------------------------------------

/// How often the last rule decided is counted entry by entry.
pub proof fn law_last_rule_is_counted(
    s: IndexView,
    m: Map<Seq<u8>, EntryView>,
    ks: Seq<Seq<u8>>,
    list: Seq<DeferredView>,
)
    ensures
        fallbacks_among(s, m, ks) == ks.filter(|p: Seq<u8>| classified(s, m[p]).fallback).len(),
        fallbacks_of(s, list) == list.filter(
            |d: DeferredView| classified(s, d.entry).fallback,
        ).len(),
    decreases ks.len() + list.len(),
{
    reveal(Seq::filter);
    if ks.len() > 0 {
        law_last_rule_is_counted(s, m, ks.drop_last(), list);
    } else if list.len() > 0 {
        law_last_rule_is_counted(s, m, ks, list.drop_last());
    }
}

/// What is counted is added to what was counted, held at the end of the range.
pub proof fn law_counts_add_up(f: FolderView, n: nat)
    ensures
        f.counting(n) == (FolderView { winner_fallbacks: f.counting(n).winner_fallbacks, ..f }),
        f.counting(n).winner_fallbacks == held_at_end(f.winner_fallbacks + n),
{
}

/// What is reported of items that were joined: each with how many joined it.
pub proof fn law_joins_are_reported(joined: Map<BatchId, usize>, ks: Seq<BatchId>, i: int)
    ensures
        joined_statuses(joined, ks).len() == ks.len(),
        0 <= i < ks.len() ==> joined_statuses(joined, ks)[i] == (StatusView::JoinedHeld {
            batch: ks[i],
            count: joined[ks[i]] as nat,
        }),
    decreases ks.len(),
{
    if ks.len() > 0 {
        law_joins_are_reported(joined, ks.drop_last(), i);
    }
}

/// Once a folder is not paused any more nothing waits for that: what waited is looked at, and what
/// waits for something else goes on waiting.
pub proof fn law_nothing_stays_frozen(
    deferred: Map<Seq<u8>, Seq<DeferredView>>,
    ks: Seq<Seq<u8>>,
    p: Seq<u8>,
)
    requires
        deferred.contains_key(p),
    ensures
        ({
            let rest = deferred[p].filter(|d: DeferredView| d.reason != DeferredReason::Frozen);
            &&& thawed(deferred).contains_key(p) <==> rest.len() > 0
            &&& rest.len() > 0 ==> thawed(deferred)[p] == rest
        }),
        ks.len() > 0 ==> frozen_among(deferred, ks) == frozen_among(deferred, ks.drop_last())
            + deferred[ks.last()].filter(|d: DeferredView| d.reason == DeferredReason::Frozen),
        ks.len() == 0 ==> frozen_among(deferred, ks).len() == 0,
{
    crate::laws::letting::law_waiting_by_reason(deferred[p], DeferredReason::Frozen);
    if ks.len() > 0 {
        crate::laws::letting::law_waiting_by_reason(deferred[ks.last()], DeferredReason::Frozen);
    }
}

/// A list without repetitions holds the same things, each once.
pub proof fn law_no_repetitions<A>(q: Seq<A>, x: A)
    ensures
        distinct(q).contains(x) <==> q.contains(x),
        distinct(q).no_duplicates(),
    decreases q.len(),
{
    if q.len() > 0 {
        let t = q.drop_last();
        let z = q.last();
        law_no_repetitions(t, x);
        law_no_repetitions(t, z);
        assert(q[q.len() - 1] == z);
        if q.contains(x) {
            let i = choose|i: int| 0 <= i < q.len() && q[i] == x;
            if i < t.len() {
                assert(t[i] == x);
            }
        }
        if t.contains(x) {
            let i = choose|i: int| 0 <= i < t.len() && t[i] == x;
            assert(q[i] == x);
        }
        if !t.contains(z) {
            let d = distinct(t);
            let e = d.push(z);
            if d.contains(x) {
                let i = choose|i: int| 0 <= i < d.len() && d[i] == x;
                assert(e[i] == x);
            }
            if e.contains(x) {
                let i = choose|i: int| 0 <= i < e.len() && e[i] == x;
                if i < d.len() {
                    assert(d[i] == x);
                }
            }
            assert(e[e.len() - 1] == z);
            assert forall|i: int, j: int| 0 <= i < e.len() && 0 <= j < e.len() && i != j implies e[i]
                != e[j] by {
                if i == d.len() {
                    assert(e[j] == d[j]);
                    assert(d.contains(d[j]));
                } else if j == d.len() {
                    assert(e[i] == d[i]);
                    assert(d.contains(d[i]));
                }
            }
        }
    }
}

/// While the host is at work on a want, or about to be, its path is not looked at; a want that
/// waits for a source or gave up does not hide its path.
pub proof fn law_states(w: WantView)
    ensures
        w.state.short_lived() <==> w.state is Wanted || w.state is Blocked || w.state is Fetching
            || w.state is Committing,
        w.needs_fetch() <==> w.mode == crate::batch::ApplyMode::Fetch && !w.fetched,
        w.makes_dir() <==> !w.entry.deleted && w.entry.kind == Kind::Dir,
        w.state.due() is Some <==> w.state is Fetching || w.state is Committing,
{
}

/// Whether a list gives no counter for a node from a place on.
pub open spec fn silent_from(pairs: Seq<(NodeId, u64)>, n: NodeId, i: int) -> bool {
    forall|j: int| i <= j < pairs.len() ==> (#[trigger] pairs[j]).0 != n
}

/// A version made of counters has, for every node, the last counter given for it; none if that is
/// zero or none was given.
pub proof fn law_version_of_counters(pairs: Seq<(NodeId, u64)>, n: NodeId, i: int)
    requires
        -1 <= i < pairs.len(),
        i >= 0 ==> pairs[i].0 == n,
        silent_from(pairs, n, i + 1),
    ensures
        counter_of(vector_of(pairs), n) == if i >= 0 {
            pairs[i].1
        } else {
            0
        },
        vector_of(pairs).contains_key(n) ==> vector_of(pairs)[n] > 0,
    decreases pairs.len(),
{
    if pairs.len() > 0 {
        let t = pairs.drop_last();
        let z = pairs.len() - 1;
        assert(pairs[z] == pairs.last());
        if i < z {
            assert(pairs[z].0 != n);
            assert(silent_from(t, n, i + 1)) by {
                assert forall|j: int| i + 1 <= j < t.len() implies (#[trigger] t[j]).0 != n by {
                    assert(pairs[j].0 != n);
                }
            }
            law_version_of_counters(t, n, i);
        }
    }
}

/// Everything that waits at some paths is listed, path by path, as it waits there.
pub proof fn law_waiting_listed(
    deferred: Map<Seq<u8>, Seq<DeferredView>>,
    ks: Seq<Seq<u8>>,
    d: DeferredView,
)
    ensures
        waiting_among(deferred, ks).contains(d) <==> exists|i: int|
            0 <= i < ks.len() && deferred[#[trigger] ks[i]].contains(d),
    decreases ks.len(),
{
    if ks.len() > 0 {
        let t = ks.drop_last();
        let z = ks.len() - 1;
        law_waiting_listed(deferred, t, d);
        let a = waiting_among(deferred, t);
        let b = deferred[ks.last()];
        let l = waiting_among(deferred, ks);
        assert(ks[z] == ks.last());
        if l.contains(d) {
            let i = choose|i: int| 0 <= i < l.len() && l[i] == d;
            if i < a.len() {
                assert(a[i] == d);
                let j = choose|j: int| 0 <= j < t.len() && deferred[#[trigger] t[j]].contains(d);
                assert(ks[j] == t[j]);
            } else {
                assert(b[i - a.len()] == d);
                assert(deferred[ks[z]].contains(d));
            }
        }
        if exists|i: int| 0 <= i < ks.len() && deferred[#[trigger] ks[i]].contains(d) {
            let i = choose|i: int| 0 <= i < ks.len() && deferred[#[trigger] ks[i]].contains(d);
            if i < t.len() {
                assert(t[i] == ks[i]);
                let j = choose|j: int| 0 <= j < a.len() && a[j] == d;
                assert(l[j] == d);
            } else {
                let j = choose|j: int| 0 <= j < b.len() && b[j] == d;
                assert(l[a.len() + j] == d);
            }
        }
    }
}

/// Items go on with what was received at their paths, and candidates with the batch they came in.
pub proof fn law_items_keep_what_was_received(
    items: Seq<crate::batch::ItemView>,
    raw: Map<Seq<u8>, EntryView>,
    pairs: Seq<(crate::batch::ItemView, EntryView)>,
    batch: BatchId,
    source: NodeId,
    seq_high: u64,
    i: int,
)
    ensures
        crate::folder_view::paired(items, raw).len() == items.len(),
        0 <= i < items.len() && raw.contains_key(items[i].entry.path) ==> crate::folder_view::paired(
            items,
            raw,
        )[i] == (items[i], raw[items[i].entry.path]),
        ({
            let cs = crate::folder_view::as_candidates(pairs, batch, source, seq_high);
            &&& cs.len() == pairs.len()
            &&& 0 <= i < pairs.len() ==> cs[i].item == pairs[i].0 && cs[i].raw == pairs[i].1
                && cs[i].batch == batch && cs[i].source == source && cs[i].seq_high == seq_high
        }),
{
}

/// A folder without rules of its own holds a batch from fifty deletions and modifications on that
/// are a quarter of what is tracked, and one of more than twenty gibibytes; it fetches files of up
/// to a gibibyte over a direct path and of up to fifty mebibytes over a relay.
pub proof fn law_standard_rules()
    ensures
        ({
            let r = Rules::standard();
            &&& r.hold_count == 50
            &&& r.hold_pct == 25
            &&& r.hold_size == 20 * 1024 * 1024 * 1024
            &&& r.direct_limit == 1024 * 1024 * 1024
            &&& r.relay_limit == 50 * 1024 * 1024
            &&& r.max_fetches_per_peer > 0
            &&& r.max_fetches_per_folder >= r.max_fetches_per_peer
        }),
{
}

} // verus!
