//! Laws of the index.

use crate::batch::classified;
use crate::entry::{ContentHash, EntryView, Observed};
use crate::id::NodeId;
use crate::index::{join_all, next_number, recorded, ChangeKind, IndexView, RecordView};
use crate::order::{in_order, lemma_order_facts, Ordered};
use crate::version::{
    counter_of, covers, law_dominance_transitive, law_increment, law_merge_least_upper_bound, raise,
    relation, Relation, Vector,
};
use vstd::prelude::*;

verus! {

// ---- what always holds ------------------------------------------------------

/// A new index is well formed.
pub proof fn law_initial_well_formed(own: NodeId, host: Seq<u8>)
    ensures
        IndexView::initial(own, host).well_formed(),
{
}

/// Local changes keep the index well formed.
pub proof fn law_written_well_formed(s: IndexView, e: EntryView)
    requires
        s.well_formed(),
    ensures
        s.written(e).well_formed(),
{
    let t = s.written(e);
    assert forall|p: Seq<u8>| #[trigger] t.pending.contains_key(p) implies t.records.contains_key(
        p,
    ) && (t.pending[p] is Some ==> (t.pending[p]->0).entry.path == p && (t.pending[p]->0).seq
        <= t.seq) by {
        if p == e.path && !s.pending.contains_key(p) {
            assert(t.pending[p] == s.get(p));
        } else {
            assert(s.pending.contains_key(p));
        }
    }
    assert forall|p: Seq<u8>| #[trigger] t.exempt.contains(p) implies t.pending.dom().contains(
        p,
    ) by {
        assert(s.exempt.contains(p));
        assert(s.pending.dom().contains(p));
    }
}

/// Observations keep the index well formed.
pub proof fn law_observe_well_formed(s: IndexView, path: Seq<u8>, o: Observed, at_ns: i64)
    requires
        s.well_formed(),
    ensures
        s.observe(path, o).well_formed(),
        s.observe_absent(path, at_ns).well_formed(),
        s.observe_lost(path, at_ns).well_formed(),
{
    law_written_well_formed(s, s.observed_entry(path, o));
    law_written_well_formed(s, s.tombstone(path, at_ns));
}

/// Conflict copies and bumps keep the index well formed.
pub proof fn law_copies_and_bumps_well_formed(
    s: IndexView,
    path: Seq<u8>,
    loser: EntryView,
    over: Seq<Vector>,
    over_stamp: Option<i64>,
    at_ns: i64,
)
    requires
        s.well_formed(),
    ensures
        s.written(s.copy_entry(path, loser)).well_formed(),
        s.written(s.bumped_entry(path, over, over_stamp, at_ns)).well_formed(),
{
    law_written_well_formed(s, s.copy_entry(path, loser));
    law_written_well_formed(s, s.bumped_entry(path, over, over_stamp, at_ns));
}

/// Adopting keeps the index well formed.
pub proof fn law_adopted_well_formed(s: IndexView, e: EntryView)
    requires
        s.well_formed(),
    ensures
        s.adopted(e).well_formed(),
{
    let t = s.adopted(e);
    assert forall|p: Seq<u8>| #[trigger] t.exempt.contains(p) implies t.pending.dom().contains(
        p,
    ) by {
        assert(s.exempt.contains(p));
        assert(s.pending.dom().contains(p));
    }
}

/// Announcing, reverting and receiving keep the index well formed.
pub proof fn law_settling_well_formed(s: IndexView, peer: NodeId, low: u64, high: u64)
    requires
        s.well_formed(),
    ensures
        s.announced().well_formed(),
        s.reverted().well_formed(),
        s.received(peer, low, high).well_formed(),
{
    let t = s.reverted();
    assert(t.records.dom().subset_of(s.records.dom())) by {
        assert forall|p: Seq<u8>| #[trigger] t.records.dom().contains(p) implies s.records.dom().contains(
            p,
        ) by {
            if s.pending.contains_key(p) {
                assert(s.records.contains_key(p));
            }
        }
    }
    vstd::set_lib::lemma_set_subset_finite(s.records.dom(), t.records.dom());
    assert forall|p: Seq<u8>| #[trigger] t.records.contains_key(p) implies t.records[p].entry.path
        == p && t.records[p].seq <= t.seq by {
        if s.pending.contains_key(p) {
        } else {
            assert(s.records.contains_key(p));
        }
    }
}

// ---- local changes ----------------------------------------------------------

/// A local change continues the vector that was there: it dominates it and raises this machine's
/// counter by one; the record gets the next sequence number, is this machine's work, carries the
/// hash of what peers last saw, and ranks above what it replaces.
pub proof fn law_observation_is_a_step(s: IndexView, path: Seq<u8>, o: Observed)
    requires
        s.differs(path, o),
        counter_of(s.version_at(path), s.own) < u64::MAX,
        s.seq < u64::MAX,
    ensures
        ({
            let t = s.observe(path, o);
            let e = t.records[path].entry;
            &&& t.records.contains_key(path)
            &&& relation(e.version, s.version_at(path)) == Relation::Dominates
            &&& counter_of(e.version, s.own) == counter_of(s.version_at(path), s.own) + 1
            &&& t.seq == s.seq + 1
            &&& t.records[path].seq == t.seq
            &&& e.modified_by == s.own
            &&& e.author_host == s.host
            &&& e.prev_hash == s.seen_hash(path)
            &&& e.observed() == recorded(o)
            &&& !e.deleted
            &&& t.pending.contains_key(path)
            &&& s.records.contains_key(path) && s.records[path].entry.stamp < i64::MAX ==> e.stamp
                > s.records[path].entry.stamp
        }),
{
    law_increment(s.version_at(path), s.own, s.own);
}

/// A deletion continues the vector in the same way, and leaves a tombstone.
pub proof fn law_deletion_is_a_step(s: IndexView, path: Seq<u8>, at_ns: i64)
    requires
        s.live(path) is Some,
        counter_of(s.version_at(path), s.own) < u64::MAX,
        s.seq < u64::MAX,
    ensures
        ({
            let t = s.observe_absent(path, at_ns);
            let e = t.records[path].entry;
            &&& e.deleted
            &&& e.hash == ContentHash::empty()
            &&& relation(e.version, s.version_at(path)) == Relation::Dominates
            &&& t.seq == s.seq + 1
            &&& t.records[path].seq == t.seq
            &&& e.prev_hash == s.seen_hash(path)
            &&& t.live(path) is None
            &&& t.pending.contains_key(path)
            &&& s.records[path].entry.stamp < i64::MAX ==> e.stamp > s.records[path].entry.stamp
        }),
{
    law_increment(s.version_at(path), s.own, s.own);
}

/// What was observed is not observed again: the second report changes nothing.
pub proof fn law_observation_idempotent(s: IndexView, path: Seq<u8>, o: Observed, at_ns: i64)
    ensures
        !s.observe(path, o).differs(path, o),
        s.observe(path, o).observe(path, o) == s.observe(path, o),
        s.observe_absent(path, at_ns).observe_absent(path, at_ns) == s.observe_absent(path, at_ns),
{
}

/// A change at one path leaves every other path as it was.
pub proof fn law_change_is_local(s: IndexView, path: Seq<u8>, o: Observed, other: Seq<u8>)
    requires
        other != path,
    ensures
        s.observe(path, o).get(other) == s.get(other),
        s.observe(path, o).last_seen(other) == s.last_seen(other),
        s.observe(path, o).pending.contains_key(other) == s.pending.contains_key(other),
{
}

/// Changes before one announcement are one step from what peers last saw: no local change moves
/// what that was.
pub proof fn law_changes_coalesce(s: IndexView, e: EntryView, p: Seq<u8>)
    requires
        s.well_formed(),
    ensures
        s.written(e).last_seen(p) == s.last_seen(p),
        s.written(e).seen_hash(p) == s.seen_hash(p),
        s.written(e).seen_live(p) == s.seen_live(p),
{
}

/// A pending change is an add if peers saw nothing live, a modification if they saw a live entry
/// and one is there, and a deletion if none is there.
pub proof fn law_pending_kind(s: IndexView, e: EntryView)
    requires
        s.well_formed(),
    ensures
        s.written(e).pending_kind(e.path) == Some(s.change(e).kind),
        s.change(e).kind == ChangeKind::step(s.seen_live(e.path), !e.deleted),
{
}

// ---- announcing and reverting -----------------------------------------------

/// Once everything is announced, nothing is left to announce, and nothing is pending.
pub proof fn law_announced_leaves_nothing(s: IndexView)
    requires
        s.well_formed(),
    ensures
        s.announced().unannounced() == Seq::<(RecordView, Option<ChangeKind>)>::empty(),
        s.announced().pending == Map::<Seq<u8>, Option<RecordView>>::empty(),
        s.announced().records == s.records,
{
    let t = s.announced();
    assert(t.unannounced_keys() =~= Set::<(u64, Seq<u8>)>::empty());
    lemma_order_facts(t.unannounced_keys());
    assert(t.unannounced() =~= Seq::<(RecordView, Option<ChangeKind>)>::empty());
}

/// A local change is announced next.
pub proof fn law_change_is_announced_next(s: IndexView, e: EntryView)
    requires
        s.well_formed(),
        s.seq < u64::MAX,
    ensures
        s.written(e).unannounced_keys().contains((next_number(s.seq), e.path)),
{
}

/// A revert puts back what peers last saw at every path, and nothing else.
pub proof fn law_revert_restores(s: IndexView, p: Seq<u8>)
    ensures
        s.reverted().get(p) == s.last_seen(p),
        s.reverted().seq == s.seq,
        s.reverted().announced_seq == s.announced_seq,
{
}

/// Whatever local changes are made, a revert leads back to the same records.
pub proof fn law_revert_undoes_local_changes(s: IndexView, e: EntryView)
    requires
        s.well_formed(),
    ensures
        s.written(e).reverted().records == s.reverted().records,
        s.pending == Map::<Seq<u8>, Option<RecordView>>::empty() ==> s.written(e).reverted().records
            == s.records,
{
    assert forall|p: Seq<u8>| s.written(e).last_seen(p) == s.last_seen(p) by {
        law_changes_coalesce(s, e, p);
    }
    assert(s.written(e).reverted().records =~= s.reverted().records);
    if s.pending == Map::<Seq<u8>, Option<RecordView>>::empty() {
        assert(s.reverted().records =~= s.records);
    }
}

/// What catch-up sends never shows a pending change: every record of it is what peers last saw at
/// its path, lies above what the peer has, and comes in the order of sequence numbers.
pub proof fn law_catchup_never_leaks(s: IndexView, after: u64)
    requires
        s.well_formed(),
    ensures
        ({
            let l = s.announced_since(after);
            &&& forall|i: int|
                0 <= i < l.len() ==> (#[trigger] l[i]).seq > after && Some(l[i]) == s.last_seen(
                    l[i].entry.path,
                )
            &&& forall|i: int, j: int|
                0 <= i < j < l.len() ==> (#[trigger] l[i]).seq <= (#[trigger] l[j]).seq
        }),
{
    let keys = s.announced_keys(after);
    let l = s.announced_since(after);
    lemma_announced_keys_finite(s, after);
    lemma_order_facts(keys);
    let ks = in_order(keys);
    assert forall|i: int| 0 <= i < l.len() implies (#[trigger] l[i]).seq > after && Some(l[i])
        == s.last_seen(l[i].entry.path) by {
        assert(keys.contains(ks[i]));
        assert(s.announced_at(ks[i].1) is Some);
        let p = ks[i].1;
        assert(s.records.contains_key(p));
        if s.pending.contains_key(p) {
            assert((s.pending[p]->0).entry.path == p);
        }
        assert(l[i].entry.path == p);
    }
    assert forall|i: int, j: int| 0 <= i < j < l.len() implies (#[trigger] l[i]).seq <= (
    #[trigger] l[j]).seq by {
        assert(keys.contains(ks[i]));
        assert(keys.contains(ks[j]));
        assert(ks[i].before(ks[j]));
        assert(l[i].seq == ks[i].0);
        assert(l[j].seq == ks[j].0);
    }
}

/// Finitely many records were announced.
pub proof fn lemma_announced_keys_finite(s: IndexView, after: u64)
    requires
        s.records.dom().finite(),
    ensures
        s.announced_keys(after).finite(),
{
    let f = |p: Seq<u8>|
        (
            match s.announced_at(p) {
                Some(r) => r.seq,
                None => 0u64,
            },
            p,
        );
    s.records.dom().lemma_map_finite(f);
    let m = s.records.dom().map(f);
    assert forall|k: (u64, Seq<u8>)| #[trigger] s.announced_keys(after).contains(k) implies m.contains(
        k,
    ) by {
        assert(s.records.dom().contains(k.1));
        assert(f(k.1) == k);
    }
    vstd::set_lib::lemma_set_subset_finite(m, s.announced_keys(after));
}

// ---- adopting and bumping ---------------------------------------------------

/// What was adopted is not news: received again, nothing is done about it.
pub proof fn law_adopted_is_not_news(s: IndexView, e: EntryView)
    ensures
        s.adopted(e).get(e.path) == Some(RecordView { entry: e, seq: next_number(s.seq) }),
        classified(s.adopted(e), e).item is None,
        !s.adopted(e).pending.contains_key(e.path),
{
}

proof fn lemma_join_all_covers(base: Vector, over: Seq<Vector>)
    ensures
        covers(join_all(base, over), base),
        forall|i: int| 0 <= i < over.len() ==> covers(join_all(base, over), #[trigger] over[i]),
    decreases over.len(),
{
    if over.len() > 0 {
        let t = over.drop_last();
        lemma_join_all_covers(base, t);
        let a = join_all(base, t);
        law_merge_least_upper_bound(a, over.last(), a);
        let j = join_all(base, over);
        law_dominance_transitive(j, a, base);
        assert forall|i: int| 0 <= i < over.len() implies covers(j, #[trigger] over[i]) by {
            if i < t.len() {
                assert(covers(a, t[i]));
                law_dominance_transitive(j, a, over[i]);
            }
        }
    }
}

/// A bump dominates the record and every version that it is made over, keeps the content, and
/// ranks above them.
pub proof fn law_bump_dominates(
    s: IndexView,
    path: Seq<u8>,
    over: Seq<Vector>,
    over_stamp: Option<i64>,
    at_ns: i64,
)
    requires
        counter_of(join_all(s.version_at(path), over), s.own) < u64::MAX,
    ensures
        ({
            let e = s.bumped_entry(path, over, over_stamp, at_ns);
            &&& relation(e.version, s.version_at(path)) == Relation::Dominates
            &&& forall|i: int|
                0 <= i < over.len() ==> relation(e.version, #[trigger] over[i])
                    == Relation::Dominates
            &&& s.records.contains_key(path) ==> {
                let r = s.records[path].entry;
                e.same_content(EntryView { path: e.path, ..r }) && e.mtime_ns == r.mtime_ns
                    && e.size == r.size
            }
            &&& !s.records.contains_key(path) ==> e.deleted
            &&& over_stamp is Some && over_stamp->0 < i64::MAX ==> e.stamp > over_stamp->0
        }),
{
    let j = join_all(s.version_at(path), over);
    let v = raise(j, s.own);
    lemma_join_all_covers(s.version_at(path), over);
    law_increment(j, s.own, s.own);
    law_dominance_transitive(v, j, s.version_at(path));
    assert forall|i: int| 0 <= i < over.len() implies relation(v, #[trigger] over[i])
        == Relation::Dominates by {
        assert(covers(j, over[i]));
        law_dominance_transitive(v, j, over[i]);
    }
}

// ---- sequence numbers -------------------------------------------------------

/// Whether sequence numbers tell records apart: no two paths share one, neither among the records
/// nor among what peers last saw, and a pending change is newer than what it replaces.
pub open spec fn numbered(s: IndexView) -> bool {
    &&& forall|p: Seq<u8>, q: Seq<u8>|
        s.records.contains_key(p) && s.records.contains_key(q) && p != q ==> (
        #[trigger] s.records[p]).seq != (#[trigger] s.records[q]).seq
    &&& forall|p: Seq<u8>, q: Seq<u8>|
        (#[trigger] s.last_seen(p)) is Some && (#[trigger] s.last_seen(q)) is Some && p != q ==> (
        s.last_seen(p)->0).seq != (s.last_seen(q)->0).seq
    &&& forall|p: Seq<u8>| #[trigger]
        s.pending.contains_key(p) && s.pending[p] is Some ==> (s.pending[p]->0).seq
            < s.records[p].seq
}

/// Whether sequence numbers tell records apart as long as the counter has not run out.
pub open spec fn numbered_while(s: IndexView) -> bool {
    s.seq < u64::MAX ==> numbered(s)
}

proof fn lemma_last_seen_number(s: IndexView, p: Seq<u8>)
    requires
        s.well_formed(),
        s.last_seen(p) is Some,
    ensures
        (s.last_seen(p)->0).seq <= s.seq,
        (s.last_seen(p)->0).entry.path == p,
{
    if s.pending.contains_key(p) {
        assert(s.pending[p] is Some);
    } else {
        assert(s.records.contains_key(p));
    }
}

/// A new index tells its records apart.
pub proof fn law_initial_numbered(own: NodeId, host: Seq<u8>)
    ensures
        numbered(IndexView::initial(own, host)),
{
}

/// Writing keeps sequence numbers apart, while the counter lasts.
pub proof fn law_written_numbered(s: IndexView, e: EntryView)
    requires
        s.well_formed(),
    ensures
        numbered_while(s) ==> numbered_while(s.written(e)),
        s.seq < u64::MAX && numbered(s) ==> numbered(s.written(e)),
{
    if s.seq < u64::MAX && numbered(s) {
        let t = s.written(e);
        assert forall|p: Seq<u8>, q: Seq<u8>|
            (#[trigger] t.last_seen(p)) is Some && (#[trigger] t.last_seen(q)) is Some && p
                != q implies (t.last_seen(p)->0).seq != (t.last_seen(q)->0).seq by {
            law_changes_coalesce(s, e, p);
            law_changes_coalesce(s, e, q);
        }
        assert forall|p: Seq<u8>| #[trigger]
            t.pending.contains_key(p) && t.pending[p] is Some implies (t.pending[p]->0).seq
            < t.records[p].seq by {
            if p == e.path {
                law_changes_coalesce(s, e, p);
                lemma_last_seen_number(s, p);
            } else {
                assert(s.pending.contains_key(p));
            }
        }
    }
}

/// Observations keep sequence numbers apart, while the counter lasts.
pub proof fn law_observe_numbered(s: IndexView, path: Seq<u8>, o: Observed, at_ns: i64)
    requires
        s.well_formed(),
        numbered_while(s),
    ensures
        numbered_while(s.observe(path, o)),
        numbered_while(s.observe_absent(path, at_ns)),
        numbered_while(s.observe_lost(path, at_ns)),
{
    law_written_numbered(s, s.observed_entry(path, o));
    law_written_numbered(s, s.tombstone(path, at_ns));
    let t = s.written(s.tombstone(path, at_ns));
    let u = s.observe_lost(path, at_ns);
    if s.live(path) is Some {
        assert(u.records == t.records && u.pending == t.pending);
        assert forall|p: Seq<u8>| #[trigger] u.last_seen(p) == t.last_seen(p) by {}
    }
}

/// Adopting keeps sequence numbers apart, while the counter lasts.
pub proof fn law_adopted_numbered(s: IndexView, e: EntryView)
    requires
        s.well_formed(),
        numbered_while(s),
    ensures
        numbered_while(s.adopted(e)),
{
    if s.seq < u64::MAX {
        let t = s.adopted(e);
        assert forall|p: Seq<u8>, q: Seq<u8>|
            (#[trigger] t.last_seen(p)) is Some && (#[trigger] t.last_seen(q)) is Some && p
                != q implies (t.last_seen(p)->0).seq != (t.last_seen(q)->0).seq by {
            if p != e.path {
                assert(t.last_seen(p) == s.last_seen(p));
                lemma_last_seen_number(s, p);
            }
            if q != e.path {
                assert(t.last_seen(q) == s.last_seen(q));
                lemma_last_seen_number(s, q);
            }
        }
        assert forall|p: Seq<u8>| #[trigger]
            t.pending.contains_key(p) && t.pending[p] is Some implies (t.pending[p]->0).seq
            < t.records[p].seq by {
            assert(s.pending.contains_key(p));
        }
    }
}

/// Announcing, reverting and receiving keep sequence numbers apart.
pub proof fn law_settling_numbered(s: IndexView, peer: NodeId, low: u64, high: u64)
    requires
        s.well_formed(),
        numbered_while(s),
    ensures
        numbered_while(s.announced()),
        numbered_while(s.reverted()),
        numbered_while(s.received(peer, low, high)),
{
    if s.seq < u64::MAX {
        let t = s.announced();
        assert forall|p: Seq<u8>| #[trigger] t.last_seen(p) == s.get(p) by {}
        let u = s.reverted();
        assert forall|p: Seq<u8>| #[trigger] u.last_seen(p) == s.last_seen(p) by {}
        assert forall|p: Seq<u8>, q: Seq<u8>|
            u.records.contains_key(p) && u.records.contains_key(q) && p != q implies (
        #[trigger] u.records[p]).seq != (#[trigger] u.records[q]).seq by {
            assert(s.last_seen(p) is Some && s.last_seen(q) is Some);
        }
        let v = s.received(peer, low, high);
        assert forall|p: Seq<u8>| #[trigger] v.last_seen(p) == s.last_seen(p) by {}
        assert forall|p: Seq<u8>| #[trigger]
            v.pending.contains_key(p) && v.pending[p] is Some implies (v.pending[p]->0).seq
            < v.records[p].seq by {
            assert(s.pending.contains_key(p));
        }
    }
}

/// What catch-up sends comes in strictly increasing sequence numbers.
pub proof fn law_catchup_increases(s: IndexView, after: u64)
    requires
        s.well_formed(),
        numbered(s),
    ensures
        ({
            let l = s.announced_since(after);
            forall|i: int, j: int|
                0 <= i < j < l.len() ==> (#[trigger] l[i]).seq < (#[trigger] l[j]).seq
        }),
{
    let keys = s.announced_keys(after);
    let l = s.announced_since(after);
    lemma_announced_keys_finite(s, after);
    lemma_order_facts(keys);
    let ks = in_order(keys);
    law_catchup_never_leaks(s, after);
    assert forall|i: int, j: int| 0 <= i < j < l.len() implies (#[trigger] l[i]).seq < (
    #[trigger] l[j]).seq by {
        assert(keys.contains(ks[i]) && keys.contains(ks[j]));
        assert(ks[i].before(ks[j]));
        let (p, q) = (ks[i].1, ks[j].1);
        assert(s.announced_at(p) == s.last_seen(p));
        assert(s.announced_at(q) == s.last_seen(q));
        if p == q {
            assert(ks[i] == ks[j]);
            Ordered::irreflexive(ks[i]);
        }
        assert((s.last_seen(p)->0).seq != (s.last_seen(q)->0).seq);
    }
}

/// Whether everything that peers could have seen was announced: nothing adopted still waits.
pub open spec fn settled(s: IndexView) -> bool {
    forall|p: Seq<u8>|
        (#[trigger] s.last_seen(p)) is Some ==> (s.last_seen(p)->0).seq <= s.announced_seq
}

/// Right after an announcement, catch-up sends exactly the records above what the peer has, as
/// they stand, and none above what was announced.
pub proof fn law_catchup_after_announcing(s: IndexView, after: u64)
    requires
        s.well_formed(),
    ensures
        settled(s.announced()),
        s.announced().well_formed(),
        ({
            let l = s.announced().announced_since(after);
            &&& forall|i: int|
                0 <= i < l.len() ==> after < (#[trigger] l[i]).seq <= s.announced().announced_seq
                    && s.get(l[i].entry.path) == Some(l[i])
            &&& forall|p: Seq<u8>| #[trigger]
                s.records.contains_key(p) && s.records[p].seq > after ==> l.contains(s.records[p])
        }),
{
    let t = s.announced();
    law_settling_well_formed(s, s.own, 0, 0);
    law_catchup_never_leaks(t, after);
    assert forall|p: Seq<u8>| #[trigger] t.last_seen(p) == s.get(p) by {}
    let l = t.announced_since(after);
    let keys = t.announced_keys(after);
    lemma_announced_keys_finite(t, after);
    lemma_order_facts(keys);
    let ks = in_order(keys);
    assert forall|p: Seq<u8>| #[trigger]
        s.records.contains_key(p) && s.records[p].seq > after implies l.contains(s.records[p]) by {
        let k = (s.records[p].seq, p);
        assert(t.announced_at(p) == Some(s.records[p]));
        assert(keys.contains(k));
        let i = choose|i: int| 0 <= i < ks.len() && ks[i] == k;
        assert(l[i] == s.records[p]);
    }
    assert forall|i: int| 0 <= i < l.len() implies after < (#[trigger] l[i]).seq
        <= t.announced_seq && s.get(l[i].entry.path) == Some(l[i]) by {
        assert(Some(l[i]) == t.last_seen(l[i].entry.path));
    }
}

/// The index after some local changes, in turn.
pub open spec fn written_all(s: IndexView, es: Seq<EntryView>) -> IndexView
    decreases es.len(),
{
    if es.len() == 0 {
        s
    } else {
        written_all(s, es.drop_last()).written(es.last())
    }
}

/// Local changes never leak into catch-up: whatever is observed, found gone, bumped or copied
/// after an announcement, catch-up sends what it would have sent right after it.
pub proof fn law_catchup_ignores_local_changes(s: IndexView, es: Seq<EntryView>, after: u64)
    requires
        s.well_formed(),
        settled(s),
    ensures
        written_all(s, es).announced_since(after) == s.announced_since(after),
        written_all(s, es).announced_seq == s.announced_seq,
        written_all(s, es).well_formed(),
        settled(written_all(s, es)),
    decreases es.len(),
{
    if es.len() > 0 {
        let t = written_all(s, es.drop_last());
        let e = es.last();
        law_catchup_ignores_local_changes(s, es.drop_last(), after);
        law_written_well_formed(t, e);
        let u = t.written(e);
        assert forall|p: Seq<u8>| #[trigger] u.last_seen(p) == t.last_seen(p) by {
            law_changes_coalesce(t, e, p);
        }
        assert forall|p: Seq<u8>| #[trigger] u.announced_at(p) == t.announced_at(p) by {
            assert(u.last_seen(p) == t.last_seen(p));
            assert(t.announced_at(p) == t.last_seen(p));
            assert(u.announced_at(p) == u.last_seen(p));
        }
        assert(u.announced_keys(after) =~= t.announced_keys(after));
        assert(u.announced_since(after) =~= t.announced_since(after));
    }
}

/// What catch-up sends after an announcement and any local changes is what was announced: the
/// records above what the peer has as they stood then, in strictly increasing sequence numbers,
/// none above what was announced.
pub proof fn law_catchup_is_what_was_announced(s: IndexView, es: Seq<EntryView>, after: u64)
    requires
        s.well_formed(),
        numbered(s),
    ensures
        ({
            let t = written_all(s.announced(), es);
            let l = t.announced_since(after);
            &&& l == s.announced().announced_since(after)
            &&& forall|i: int|
                0 <= i < l.len() ==> after < (#[trigger] l[i]).seq <= t.announced_seq && s.get(
                    l[i].entry.path,
                ) == Some(l[i])
            &&& forall|p: Seq<u8>| #[trigger]
                s.records.contains_key(p) && s.records[p].seq > after ==> l.contains(s.records[p])
            &&& forall|i: int, j: int|
                0 <= i < j < l.len() ==> (#[trigger] l[i]).seq < (#[trigger] l[j]).seq
        }),
{
    let a = s.announced();
    law_catchup_after_announcing(s, after);
    law_catchup_ignores_local_changes(a, es, after);
    assert forall|p: Seq<u8>| #[trigger] a.last_seen(p) == s.get(p) by {}
    assert(numbered(a));
    law_catchup_increases(a, after);
}

/// Observations, and paths found gone or lost, do not change what catch-up sends.
pub proof fn law_observations_stay_out_of_catchup(
    s: IndexView,
    path: Seq<u8>,
    o: Observed,
    at_ns: i64,
    after: u64,
)
    requires
        s.well_formed(),
        settled(s),
    ensures
        s.observe(path, o).announced_since(after) == s.announced_since(after),
        s.observe_absent(path, at_ns).announced_since(after) == s.announced_since(after),
        s.observe_lost(path, at_ns).announced_since(after) == s.announced_since(after),
        settled(s.observe(path, o)),
        settled(s.observe_absent(path, at_ns)),
        settled(s.observe_lost(path, at_ns)),
{
    let (a, b) = (s.observed_entry(path, o), s.tombstone(path, at_ns));
    law_catchup_ignores_local_changes(s, seq![a], after);
    law_catchup_ignores_local_changes(s, seq![b], after);
    assert(seq![a].drop_last() =~= Seq::empty());
    assert(seq![b].drop_last() =~= Seq::empty());
    assert(written_all(s, seq![a].drop_last()) == s);
    assert(written_all(s, seq![b].drop_last()) == s);
    assert(written_all(s, seq![a]) == s.written(a));
    assert(written_all(s, seq![b]) == s.written(b));
    let t = s.written(b);
    let u = s.observe_lost(path, at_ns);
    if s.live(path) is Some {
        assert(u.records == t.records && u.pending == t.pending);
        assert forall|p: Seq<u8>| #[trigger] u.last_seen(p) == t.last_seen(p) by {}
        assert forall|p: Seq<u8>| #[trigger] u.announced_at(p) == t.announced_at(p) by {}
        assert(u.announced_keys(after) =~= t.announced_keys(after));
        assert(u.announced_since(after) =~= t.announced_since(after));
    }
}

} // verus!
