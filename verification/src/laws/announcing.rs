//! What is announced, when, and to whom it gets.

use crate::batch::{chunk, formed, law_formation_chains, summary_of, BatchView, MAX_BATCH_ENTRIES};
use crate::brake::verdict;
use crate::engine_view::{
    catchup_actions, paused_actions, plus_used, recipients, sent_actions, stalled_actions,
    status_action, ActionView, EngineView, EventView, OutboundView, TickStep,
};
use crate::entry::EntryView;
use crate::folder::Paused;
use crate::folder_view::{FolderView, StatusView, TickedView};
use crate::id::{BatchId, FolderId, NodeId};
use crate::index::{ChangeKind, IndexView, RecordView};
use crate::laws::counting::{held_at_end, law_brake_holds_exactly, too_many};
use crate::laws::engine::lemma_taken_in;
use crate::laws::index::lemma_announced_keys_finite;
use crate::laws::peers::{delivers, law_each_batch_to_each_node, law_recipients};
use crate::laws::reports::lemma_rest_told;
use crate::order::{in_order, lemma_order_facts, Ordered};
use crate::time::Timestamp;
use crate::want::{overdue_among, Tier, WantState};
use vstd::prelude::*;

verus! {

// ---- what is announced ------------------------------------------------------

/// What the change at a path counts as: from what peers last saw there to what is there now, and
/// nothing if it is not pending or exempt.
pub open spec fn change_kind(s: IndexView, p: Seq<u8>) -> Option<ChangeKind> {
    if !s.pending.contains_key(p) || s.exempt.contains(p) {
        None
    } else if s.records[p].entry.deleted {
        Some(ChangeKind::Delete)
    } else if s.pending[p] is Some && !(s.pending[p]->0).entry.deleted {
        Some(ChangeKind::Modify)
    } else {
        Some(ChangeKind::Add)
    }
}

/// What is to be announced is every record with a higher number than the last announcement, as it
/// stands, once, in the order of numbers, each with the kind of change that it counts as.
pub proof fn law_unannounced_exactly(s: IndexView)
    requires
        s.well_formed(),
    ensures
        ({
            let l = s.unannounced();
            &&& forall|i: int|
                0 <= i < l.len() ==> {
                    let p = (#[trigger] l[i]).0.entry.path;
                    s.records.contains_key(p) && l[i].0 == s.records[p] && l[i].0.seq
                        > s.announced_seq && l[i].1 == change_kind(s, p)
                }
            &&& forall|p: Seq<u8>| #[trigger]
                s.records.contains_key(p) && s.records[p].seq > s.announced_seq ==> l.contains(
                    (s.records[p], change_kind(s, p)),
                )
            &&& forall|i: int, j: int|
                0 <= i < j < l.len() ==> (#[trigger] l[i]).0.seq <= (#[trigger] l[j]).0.seq
                    && l[i].0.entry.path != l[j].0.entry.path
        }),
{
    let keys = s.unannounced_keys();
    let m = s.records.dom().map(|p: Seq<u8>| (s.records[p].seq, p));
    s.records.dom().lemma_map_finite(|p: Seq<u8>| (s.records[p].seq, p));
    assert forall|k: (u64, Seq<u8>)| #[trigger] keys.contains(k) implies m.contains(k) by {
        assert(s.records.dom().contains(k.1));
    }
    vstd::set_lib::lemma_set_subset_finite(m, keys);
    lemma_order_facts(keys);
    let ks = in_order(keys);
    let l = s.unannounced();
    assert forall|i: int| 0 <= i < l.len() implies ({
        let p = (#[trigger] l[i]).0.entry.path;
        s.records.contains_key(p) && l[i].0 == s.records[p] && l[i].0.seq > s.announced_seq
            && l[i].1 == change_kind(s, p) && p == ks[i].1
    }) by {
        assert(keys.contains(ks[i]));
    }
    assert forall|p: Seq<u8>| #[trigger]
        s.records.contains_key(p) && s.records[p].seq > s.announced_seq implies l.contains(
        (s.records[p], change_kind(s, p)),
    ) by {
        let k = (s.records[p].seq, p);
        assert(keys.contains(k));
        let i = choose|i: int| 0 <= i < ks.len() && ks[i] == k;
        assert(l[i] == (s.records[p], change_kind(s, p)));
    }
    assert forall|i: int, j: int| 0 <= i < j < l.len() implies (#[trigger] l[i]).0.seq <= (
    #[trigger] l[j]).0.seq && l[i].0.entry.path != l[j].0.entry.path by {
        assert(ks[i].before(ks[j]));
        assert(keys.contains(ks[i]));
        assert(keys.contains(ks[j]));
        Ordered::irreflexive(ks[i]);
    }
}

/// Whether a record is what was announced at a path: what peers last saw where a change is
/// pending, else what is there, if its number is not above the last announcement.
pub open spec fn was_announced(s: IndexView, p: Seq<u8>, r: RecordView) -> bool {
    s.records.contains_key(p) && if s.pending.contains_key(p) {
        s.pending[p] == Some(r)
    } else {
        s.records[p] == r && r.seq <= s.announced_seq
    }
}

/// Catch-up sends exactly what was announced with a number above what the peer has.
pub proof fn law_catchup_exactly(s: IndexView, after: u64, r: RecordView)
    requires
        s.well_formed(),
    ensures
        s.announced_since(after).contains(r) <==> r.seq > after && was_announced(
            s,
            r.entry.path,
            r,
        ),
{
    lemma_announced_keys_finite(s, after);
    let keys = s.announced_keys(after);
    lemma_order_facts(keys);
    let ks = in_order(keys);
    let l = s.announced_since(after);
    if l.contains(r) {
        let i = choose|i: int| 0 <= i < l.len() && l[i] == r;
        assert(keys.contains(ks[i]));
    }
    if r.seq > after && was_announced(s, r.entry.path, r) {
        let k = (r.seq, r.entry.path);
        assert(keys.contains(k));
        let i = choose|i: int| 0 <= i < ks.len() && ks[i] == k;
        assert(l[i] == r);
    }
}

/// Every batch that is formed bears the identifiers it was asked for, counted on from the first,
/// the time and the folder; it counts the records that it holds, and no others.
pub proof fn law_formed_batches_are_labelled(
    base: BatchId,
    folder: FolderId,
    source: NodeId,
    now: Timestamp,
    records: Seq<(RecordView, Option<ChangeKind>)>,
    seq_low: u64,
    i: int,
)
    requires
        0 <= i < formed(base, folder, source, now, records, seq_low).len(),
    ensures
        ({
            let b = formed(base, folder, source, now, records, seq_low)[i];
            let low = i * MAX_BATCH_ENTRIES;
            &&& b.id == base.after(i)
            &&& b.folder == folder
            &&& b.source == source
            &&& b.created_at == now
            &&& 0 <= low < low + b.entries.len() <= records.len()
            &&& b.summary == summary_of(records.subrange(low, low + b.entries.len()))
            &&& b.seq_high == records[low + b.entries.len() - 1].0.seq
            &&& MAX_BATCH_ENTRIES == 10_000
            &&& b.entries.len() == MAX_BATCH_ENTRIES || low + b.entries.len() == records.len()
            &&& forall|j: int|
                0 <= j < b.entries.len() ==> #[trigger] b.entries[j] == records[low + j].0.entry
        }),
{
    let n = formed(base, folder, source, now, records, seq_low).len();
    let len = records.len() as int;
    assert(n == (len + 9_999) / 10_000);
    assert(i * 10_000 < len) by {
        assert(i + 1 <= (len + 9_999) / 10_000);
    }
    let low = i * 10_000;
    let part = chunk(records, i);
    let b = formed(base, folder, source, now, records, seq_low)[i];
    assert(b.entries.len() == part.len());
    assert(part =~= records.subrange(low, low + part.len()));
}

// ---- when -------------------------------------------------------------------

/// A window closes two seconds after the last change, but not later than ten seconds after the
/// first; the first change opens it, and later ones only move its last change forward.
pub proof fn law_window_times(f: FolderView, now: Timestamp, base: BatchId)
    ensures
        ({
            let w = f.touched(now).window->0;
            &&& f.touched(now).window is Some
            &&& f.touched(now) == (FolderView { window: Some(w), ..f })
            &&& f.window is None ==> w.opened == now && w.last == now
            &&& f.window is Some ==> w.opened == (f.window->0).opened && w.last.0 == if (
            f.window->0).last.0 >= now.0 {
                (f.window->0).last.0
            } else {
                now.0
            }
            &&& w.opened.0 + 10_000_000_000 <= i64::MAX && w.last.0 + 2_000_000_000 <= i64::MAX
                ==> w.end().0 == if w.opened.0 + 10_000_000_000 <= w.last.0 + 2_000_000_000 {
                w.opened.0 + 10_000_000_000
            } else {
                w.last.0 + 2_000_000_000
            }
            &&& f.is_due(now) <==> f.window is Some && (f.window->0).end().0 <= now.0
        }),
{
}

/// What a tick does, by what is due: nothing before the window closes. Then it closes the window;
/// a folder that is paused says whether its batch would pass now; one that would destroy or write
/// too much pauses, for a batch under the fresh identifier; any other announces everything, and
/// nothing is pending then.
pub proof fn law_tick_exactly(f: FolderView, now: Timestamp, base: BatchId)
    ensures
        ({
            let g = f.ticked(now, base);
            let r = f.tick_result(now, base);
            let count = summary_of(f.index.unannounced());
            let held = verdict(f.rules, count, f.index.announced_tracked as usize);
            if f.window is None || (f.window->0).end().0 > now.0 {
                g == f && r == TickedView::Nothing
            } else if f.paused is Some {
                let p = f.paused->0;
                &&& g == (FolderView {
                    window: None,
                    paused: Some(Paused { would_pass: held is Pass, summary: count, ..p }),
                    ..f
                })
                &&& r == (TickedView::Paused {
                    first: false,
                    snapshot: Seq::empty(),
                    status: StatusView::PausedRecheck {
                        batch: p.batch,
                        would_pass: held is Pass,
                        summary: count,
                    },
                })
            } else if held is Hold {
                let reason = held->Hold_0;
                &&& g == (FolderView {
                    window: None,
                    paused: Some(
                        Paused {
                            batch: base,
                            since: now,
                            reason,
                            summary: count,
                            would_pass: false,
                        },
                    ),
                    ..f
                })
                &&& r is Paused
                &&& r->first
                &&& r->status == (StatusView::Paused { batch: base, reason, summary: count })
                &&& r->snapshot == formed(
                    base,
                    f.id,
                    f.index.own,
                    now,
                    f.index.unannounced(),
                    f.index.announced_seq,
                )
            } else {
                &&& g.window is None
                &&& g.paused is None
                &&& g.index.records == f.index.records
                &&& g.index.pending.dom() =~= Set::empty()
                &&& g.index.exempt =~= Set::empty()
                &&& g.index.seq == f.index.seq
                &&& g.index.announced_seq == f.index.seq
                &&& g.index.peer_seq == f.index.peer_seq
                &&& g.quarantine.denied.dom() =~= Set::empty()
                &&& g.quarantine.items == f.quarantine.items
                &&& g.quarantine.versions == f.quarantine.versions
                &&& g == (FolderView {
                    window: None,
                    index: g.index,
                    quarantine: g.quarantine,
                    ..f
                })
                &&& if f.index.unannounced().len() == 0 {
                    r == TickedView::Nothing
                } else {
                    r == TickedView::Sent(
                        formed(
                            base,
                            f.id,
                            f.index.own,
                            now,
                            f.index.unannounced(),
                            f.index.announced_seq,
                        ),
                    )
                }
            }
        }),
{
    law_formation_chains(
        base,
        f.id,
        f.index.own,
        now,
        f.index.unannounced(),
        f.index.announced_seq,
    );
}

/// A folder pauses over its own changes exactly if they are too many for what was tracked at the
/// last announcement, or too large.
pub proof fn law_own_changes_are_checked(f: FolderView)
    requires
        f.index.announced_tracked <= usize::MAX,
    ensures
        ({
            let count = summary_of(f.index.unannounced());
            &&& f.precheck().0 == count
            &&& f.precheck().1 is Hold <==> too_many(
                f.rules,
                held_at_end(count.dels + count.mods),
                f.index.announced_tracked as int,
            ) || count.bytes > f.rules.hold_size
        }),
{
    let count = summary_of(f.index.unannounced());
    law_brake_holds_exactly(f.rules, count, f.index.announced_tracked as usize);
}

// ---- to whom ----------------------------------------------------------------

proof fn lemma_delivers_more(
    a: Seq<ActionView>,
    b: Seq<ActionView>,
    n: NodeId,
    id: FolderId,
    e: EntryView,
)
    requires
        delivers(a, n, id, e) || delivers(b, n, id, e),
    ensures
        delivers(a + b, n, id, e),
{
    let c = a + b;
    if delivers(a, n, id, e) {
        let i = choose|i: int|
            0 <= i < a.len() && (#[trigger] a[i]) is Send && a[i]->Send_to == n
                && a[i]->payload is Batch && (a[i]->payload->Batch_0).folder == id && (
            a[i]->payload->Batch_0).entries.contains(e);
        assert(c[i] == a[i]);
    } else {
        let i = choose|i: int|
            0 <= i < b.len() && (#[trigger] b[i]) is Send && b[i]->Send_to == n
                && b[i]->payload is Batch && (b[i]->payload->Batch_0).folder == id && (
            b[i]->payload->Batch_0).entries.contains(e);
        assert(c[a.len() + i] == b[i]);
    }
}

proof fn lemma_sent_delivers(
    bs: Seq<BatchView>,
    to: Seq<NodeId>,
    n: NodeId,
    id: FolderId,
    e: EntryView,
    i: int,
)
    requires
        to.contains(n),
        0 <= i < bs.len(),
        bs[i].folder == id,
        bs[i].entries.contains(e),
    ensures
        delivers(sent_actions(bs, to), n, id, e),
{
    law_each_batch_to_each_node(bs, to);
    let j = choose|j: int| 0 <= j < to.len() && to[j] == n;
    let m = to.len() + 1;
    let k = i * m + j;
    assert(0 <= k < bs.len() * m) by (nonlinear_arith)
        requires
            k == i * m + j,
            0 <= i < bs.len(),
            0 <= j < m,
            m > 0,
    ;
    let a = sent_actions(bs, to);
    assert(a[i * (to.len() + 1) + j] == (ActionView::Send {
        to: n,
        payload: OutboundView::Batch(bs[i]),
    }));
    assert(a[k] is Send);
}

/// Where a record stands in the batches that some records are formed into.
proof fn lemma_formed_contains(
    base: BatchId,
    folder: FolderId,
    source: NodeId,
    now: Timestamp,
    records: Seq<(RecordView, Option<ChangeKind>)>,
    seq_low: u64,
    k: int,
) -> (i: int)
    requires
        0 <= k < records.len(),
    ensures
        0 <= i < formed(base, folder, source, now, records, seq_low).len(),
        formed(base, folder, source, now, records, seq_low)[i].entries.contains(
            records[k].0.entry,
        ),
{
    law_formation_chains(base, folder, source, now, records, seq_low);
    let i = k / (MAX_BATCH_ENTRIES as int);
    let j = k % (MAX_BATCH_ENTRIES as int);
    let b = formed(base, folder, source, now, records, seq_low);
    assert(records[k].0.entry == b[i].entries[j]);
    i
}

/// Whether a folder's window has closed, nothing holds it and it would pass its own check.
pub open spec fn announces(f: FolderView, now: Timestamp) -> bool {
    &&& f.window is Some
    &&& (f.window->0).end().0 <= now.0
    &&& f.paused is None
    &&& verdict(
        f.rules,
        summary_of(f.index.unannounced()),
        f.index.announced_tracked as usize,
    ) is Pass
}

/// Whether a tick owes a node an entry of a folder: a change that is announced, to a connected
/// member; or something announced before, to a node that asked to be brought up to date.
pub open spec fn owed(
    f: FolderView,
    own: NodeId,
    peers: Map<NodeId, Tier>,
    now: Timestamp,
    n: NodeId,
    r: RecordView,
) -> bool {
    ||| {
        &&& announces(f, now)
        &&& f.members.contains(n)
        &&& n != own
        &&& peers.contains_key(n)
        &&& r.seq > f.index.announced_seq
        &&& f.index.records.contains_key(r.entry.path)
        &&& f.index.records[r.entry.path] == r
    }
    ||| {
        &&& f.catchup.contains(n)
        &&& r.seq > if f.acked.contains_key(n) {
            f.acked[n]
        } else {
            0
        }
        &&& was_announced(f.index, r.entry.path, r)
    }
}

proof fn lemma_catchup_delivers(
    f: FolderView,
    now: Timestamp,
    base: BatchId,
    ps: Seq<NodeId>,
    n: NodeId,
    r: RecordView,
)
    requires
        f.index.well_formed(),
        ps.contains(n),
        r.seq > f.acked_by(n),
        was_announced(f.index, r.entry.path, r),
    ensures
        delivers(catchup_actions(f.catchup_all(now, base, ps)), n, f.id, r.entry),
    decreases ps.len(),
{
    let t = ps.drop_last();
    let used = f.catchup_used(now, base, t);
    let bs = f.catchup_for(now, base.after(used as int), ps.last());
    let l = f.catchup_all(now, base, ps);
    if bs.len() > 0 {
        assert(l.drop_last() =~= f.catchup_all(now, base, t));
    }
    if ps.last() == n {
        law_catchup_exactly(f.index, f.acked_by(n), r);
        let since = f.index.announced_since(f.acked_by(n));
        let k = choose|k: int| 0 <= k < since.len() && since[k] == r;
        let i = lemma_formed_contains(
            base.after(used as int),
            f.id,
            f.index.own,
            now,
            Seq::new(since.len(), |i: int| (since[i], None::<ChangeKind>)),
            f.acked_by(n),
            k,
        );
        let to = seq![n];
        assert(to[0] == n);
        lemma_sent_delivers(bs, to, n, f.id, r.entry, i);
        lemma_delivers_more(
            catchup_actions(l.drop_last()),
            sent_actions(bs, to),
            n,
            f.id,
            r.entry,
        );
    } else {
        let i = choose|i: int| 0 <= i < ps.len() && ps[i] == n;
        assert(t[i] == n);
        lemma_catchup_delivers(f, now, base, t, n, r);
        if bs.len() > 0 {
            lemma_delivers_more(
                catchup_actions(l.drop_last()),
                sent_actions(bs, seq![ps.last()]),
                n,
                f.id,
                r.entry,
            );
        }
    }
}

proof fn lemma_tick_delivers(
    t: TickStep,
    id: FolderId,
    own: NodeId,
    peers: Map<NodeId, Tier>,
    now: Timestamp,
    fresh: BatchId,
    n: NodeId,
    r: RecordView,
)
    requires
        t.folders[id].id == id,
        t.folders[id].index.well_formed(),
        t.folders[id].members.finite(),
        t.folders[id].catchup.finite(),
        owed(t.folders[id], own, peers, now, n, r),
    ensures
        delivers(t.tick(id, own, peers, now, fresh).actions, n, id, r.entry),
{
    reveal(TickStep::tick);
    let f0 = t.folders[id];
    let overdue = overdue_among(f0.wants.wants, f0.wants.paths(), now);
    let f1 = FolderView { wants: f0.wants.with_states(overdue, WantState::Wanted), ..f0 };
    let base = fresh.after(t.used as int);
    let ps = in_order(f1.catchup);
    lemma_order_facts(f1.catchup);
    let f2 = FolderView { catchup: Set::empty(), ..f1 };
    let used = plus_used(t.used, f1.catchup_used(now, base, ps));
    let base2 = fresh.after(used as int);
    let f3 = f2.ticked(now, base2);
    let c = catchup_actions(f1.catchup_all(now, base, ps));
    let a = t.actions + stalled_actions(id, overdue);
    let late = f0.catchup.contains(n) && r.seq > f0.acked_by(n) && was_announced(
        f0.index,
        r.entry.path,
        r,
    );
    if late {
        lemma_catchup_delivers(f1, now, base, ps, n, r);
        lemma_delivers_more(a, c, n, id, r.entry);
    }
    match f2.tick_result(now, base2) {
        TickedView::Nothing => {
            if !late {
                law_unannounced_exactly(f0.index);
                law_tick_exactly(f2, now, base2);
                let x = (r, change_kind(f0.index, r.entry.path));
                let k = choose|k: int|
                    0 <= k < f0.index.unannounced().len() && f0.index.unannounced()[k] == x;
            }
        },
        TickedView::Sent(bs) => {
            let to = recipients(f3, own, peers);
            let z = sent_actions(bs, to);
            if !late {
                law_tick_exactly(f2, now, base2);
                law_recipients(f3, own, peers);
                law_unannounced_exactly(f0.index);
                let l = f0.index.unannounced();
                let x = (r, change_kind(f0.index, r.entry.path));
                let k = choose|k: int| 0 <= k < l.len() && l[k] == x;
                let i = lemma_formed_contains(
                    base2,
                    id,
                    f0.index.own,
                    now,
                    l,
                    f0.index.announced_seq,
                    k,
                );
                lemma_sent_delivers(bs, to, n, id, r.entry, i);
            }
            lemma_delivers_more(a + c, z, n, id, r.entry);
        },
        TickedView::Paused { first, snapshot, status } => {
            law_tick_exactly(f2, now, base2);
            let x = if first {
                paused_actions(snapshot)
            } else {
                Seq::empty()
            };
            lemma_delivers_more(a + c, x, n, id, r.entry);
            lemma_delivers_more(a + c + x, seq![status_action(id, status)], n, id, r.entry);
        },
    }
}

proof fn lemma_tick_appends(
    t: TickStep,
    id: FolderId,
    own: NodeId,
    peers: Map<NodeId, Tier>,
    now: Timestamp,
    fresh: BatchId,
) -> (extra: Seq<ActionView>)
    ensures
        t.tick(id, own, peers, now, fresh).actions == t.actions + extra,
        forall|k: FolderId| k != id ==> #[trigger] t.tick(id, own, peers, now, fresh).folders[k]
            == t.folders[k],
{
    reveal(TickStep::tick);
    let r = t.tick(id, own, peers, now, fresh);
    let extra = r.actions.skip(t.actions.len() as int);
    assert(r.actions =~= t.actions + extra);
    extra
}

proof fn lemma_tick_all_delivers(
    t: TickStep,
    ks: Seq<FolderId>,
    own: NodeId,
    peers: Map<NodeId, Tier>,
    now: Timestamp,
    fresh: BatchId,
    id: FolderId,
    n: NodeId,
    r: RecordView,
)
    requires
        ks.no_duplicates(),
        t.folders[id].id == id,
        t.folders[id].index.well_formed(),
        t.folders[id].members.finite(),
        t.folders[id].catchup.finite(),
        owed(t.folders[id], own, peers, now, n, r),
    ensures
        ks.contains(id) ==> delivers(
            t.tick_all(ks, own, peers, now, fresh).actions,
            n,
            id,
            r.entry,
        ),
        !ks.contains(id) ==> t.tick_all(ks, own, peers, now, fresh).folders[id] == t.folders[id],
    decreases ks.len(),
{
    if ks.len() > 0 {
        let u = ks.drop_last();
        let k = ks[ks.len() - 1];
        lemma_tick_all_delivers(t, u, own, peers, now, fresh, id, n, r);
        let m = t.tick_all(u, own, peers, now, fresh);
        let extra = lemma_tick_appends(m, k, own, peers, now, fresh);
        if k == id {
            if u.contains(id) {
                let i = choose|i: int| 0 <= i < u.len() && u[i] == id;
                assert(ks[i] == ks[ks.len() - 1]);
            }
            lemma_tick_delivers(m, id, own, peers, now, fresh, n, r);
        } else if u.contains(id) {
            lemma_delivers_more(m.actions, extra, n, id, r.entry);
        } else if ks.contains(id) {
            let i = choose|i: int| 0 <= i < ks.len() && ks[i] == id;
            assert(u[i] == id);
        }
        if !ks.contains(id) {
            if u.contains(id) {
                let i = choose|i: int| 0 <= i < u.len() && u[i] == id;
                assert(ks[i] == id);
            }
            assert(ks[ks.len() - 1] == k);
        }
    }
}

/// A tick sends every change that is announced to every connected member, on whatever tier, and
/// everything that was announced above what it has to every node that waits for catch-up.
pub proof fn law_what_is_owed_is_sent(
    s: EngineView,
    now: Timestamp,
    fresh: BatchId,
    id: FolderId,
    n: NodeId,
    r: RecordView,
)
    requires
        s.folders.dom().finite(),
        s.folders.contains_key(id),
        s.folders[id].id == id,
        s.folders[id].index.well_formed(),
        s.folders[id].members.finite(),
        s.folders[id].catchup.finite(),
        owed(s.folders[id], s.node_id, s.peers, now, n, r),
    ensures
        delivers(
            s.handled(now, EventView::Tick { fresh_batch_id: fresh }).actions,
            n,
            id,
            r.entry,
        ),
{
    let event = EventView::Tick { fresh_batch_id: fresh };
    let t = s.taken_in(now, event);
    lemma_taken_in(s, now, event);
    let extra = lemma_rest_told(t, now, id);
    lemma_order_facts(s.folders.dom());
    assert(s.folders.dom().contains(id));
    lemma_tick_all_delivers(
        TickStep { folders: s.folders, used: 0, actions: Seq::empty() },
        s.ids(),
        s.node_id,
        s.peers,
        now,
        fresh,
        id,
        n,
        r,
    );
    lemma_delivers_more(t.actions, extra, n, id, r.entry);
}

/// Approving the paused batch sends every change that waited to every connected member, under the
/// batch's identifier and those after it.
pub proof fn law_approved_changes_are_sent(
    s: EngineView,
    now: Timestamp,
    batch: BatchId,
    id: FolderId,
    n: NodeId,
    r: RecordView,
)
    requires
        s.folders.dom().finite(),
        s.folders.contains_key(id),
        s.folders[id].id == id,
        s.folders[id].index.well_formed(),
        s.folders[id].members.finite(),
        s.folders[id].paused is Some,
        (s.folders[id].paused->0).batch == batch,
        !s.folders[id].quarantine.items.contains_key(batch),
        s.folders[id].members.contains(n),
        n != s.node_id,
        s.peers.contains_key(n),
        r.seq > s.folders[id].index.announced_seq,
        s.folders[id].index.records.contains_key(r.entry.path),
        s.folders[id].index.records[r.entry.path] == r,
    ensures
        delivers(
            s.handled(now, EventView::Approve { folder: id, batch }).actions,
            n,
            id,
            r.entry,
        ),
{
    let event = EventView::Approve { folder: id, batch };
    let t = s.taken_in(now, event);
    lemma_taken_in(s, now, event);
    let extra = lemma_rest_told(t, now, id);
    let f = s.folders[id];
    crate::laws::folder::law_approval_sends(f, now, batch);
    let w = f.approve(now, batch);
    let to = recipients(w.folder, s.node_id, s.peers);
    law_recipients(w.folder, s.node_id, s.peers);
    law_unannounced_exactly(f.index);
    let l = f.index.unannounced();
    let x = (r, change_kind(f.index, r.entry.path));
    let k = choose|k: int| 0 <= k < l.len() && l[k] == x;
    let i = lemma_formed_contains(batch, id, f.index.own, now, l, f.index.announced_seq, k);
    let bs = f.fresh_batches(now, batch);
    lemma_sent_delivers(bs, to, n, id, r.entry, i);
    let y = seq![status_action(id, StatusView::Unpaused { batch })];
    lemma_delivers_more(sent_actions(bs, to), y, n, id, r.entry);
    assert(t.actions =~= sent_actions(bs, to) + y);
    lemma_delivers_more(t.actions, extra, n, id, r.entry);
}

/// Catch-up is owed to a node that says how far it has come, and to one whose answer to a batch
/// shows that it lacks something announced; a tick pays it. What a node said last is what counts.
pub proof fn law_catchup_is_owed_when_asked(
    f: FolderView,
    n: NodeId,
    seq: u64,
    own: NodeId,
    peers: Map<NodeId, Tier>,
    now: Timestamp,
    folder: FolderId,
    decision: crate::batch::BatchDecisionView,
)
    ensures
        ({
            let g = crate::engine_view::folder_step(
                f,
                folder,
                own,
                peers,
                now,
                EventView::HaveUpToReceived { from: n, folder, seq },
            );
            &&& g.actions.len() == 0
            &&& g.folder == (FolderView { acked: g.folder.acked, catchup: g.folder.catchup, ..f })
            &&& forall|m: NodeId|
                g.folder.catchup.contains(m) <==> f.catchup.contains(m) || m == n
            &&& g.folder.acked.contains_key(n) && g.folder.acked[n] == seq
            &&& forall|m: NodeId|
                m != n ==> #[trigger] g.folder.acked_by(m) == f.acked_by(m)
        }),
        ({
            let g = crate::engine_view::folder_step(
                f,
                folder,
                own,
                peers,
                now,
                EventView::DecisionReceived { from: n, decision },
            );
            &&& g.actions.len() == 0
            &&& g.folder == (FolderView { acked: g.folder.acked, catchup: g.folder.catchup, ..f })
            &&& forall|m: NodeId|
                g.folder.catchup.contains(m) <==> f.catchup.contains(m) || (m == n
                    && decision.seq_high < f.index.announced_seq)
            &&& g.folder.acked.contains_key(n) && g.folder.acked[n] == decision.seq_high
            &&& forall|m: NodeId|
                m != n ==> #[trigger] g.folder.acked_by(m) == f.acked_by(m)
        }),
        f.acked_by(n) == if f.acked.contains_key(n) {
            f.acked[n]
        } else {
            0
        },
{
}

} // verus!
