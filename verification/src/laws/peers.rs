//! Who is connected, who is greeted, and who is sent what.

use crate::batch::{BatchRole, BatchView};
use crate::engine_view::{
    approved_actions, catchup_actions, change_actions, connected_among, folder_step, greetings,
    history, paused_actions, plus_used, receive_actions, recipients, record_actions, revert_actions,
    reverted_actions, scanned_actions, send_actions, sent_actions, stalled_actions, status_action,
    status_actions, trash_actions, ActionView, EngineView, EventView, OutboundView, TickStep,
};
use crate::folder::ScanState;
use crate::folder_view::{FolderView, StatusView, TickedView};
use crate::id::{BatchId, FolderId, NodeId};
use crate::laws::engine::{lemma_ids, lemma_schedule_all, lemma_taken_in};
use crate::laws::reports::lemma_rest_told;
use crate::order::{in_order, increasing, lemma_order_facts, Ordered};
use crate::time::Timestamp;
use crate::want::{overdue_among, Tier, WantState};
use vstd::prelude::*;

verus! {

/// The peers that are connected, and how, follow from what the host said of them alone: a
/// connection or a change of its path puts the peer in, with that tier; a disconnection takes it
/// out; nothing else changes anything.
pub proof fn law_peers_follow_events(s: EngineView, now: Timestamp, event: EventView, n: NodeId)
    ensures
        ({
            let r = s.handled(now, event).engine.peers;
            match event {
                EventView::PeerConnected { peer, tier } => if n == peer {
                    r.contains_key(n) && r[n] == tier
                } else {
                    r.contains_key(n) == s.peers.contains_key(n) && (s.peers.contains_key(n)
                        ==> r[n] == s.peers[n])
                },
                EventView::PeerTierChanged { peer, tier } => if n == peer {
                    r.contains_key(n) && r[n] == tier
                } else {
                    r.contains_key(n) == s.peers.contains_key(n) && (s.peers.contains_key(n)
                        ==> r[n] == s.peers[n])
                },
                EventView::PeerDisconnected { peer } => {
                    &&& r.contains_key(n) <==> s.peers.contains_key(n) && n != peer
                    &&& r.contains_key(n) ==> r[n] == s.peers[n]
                },
                _ => r == s.peers,
            }
        }),
{
    let t = s.taken_in(now, event);
    let p = t.pumped(now);
    lemma_schedule_all(p, p.engine.ids());
}

/// The wants are driven at every event with the peers as they are after it: a peer that was
/// connected, or is reached on another tier, counts at once.
pub proof fn law_new_peers_count_at_once(
    s: EngineView,
    now: Timestamp,
    event: EventView,
    id: FolderId,
)
    requires
        s.folders.dom().finite(),
        s.folders.contains_key(id),
        event is PeerConnected || event is PeerTierChanged,
    ensures
        ({
            let r = s.handled(now, event).engine;
            &&& r.folders.contains_key(id)
            &&& r.folders[id].wants.wants == s.folders[id].dispatched(
                now,
                r.peers,
            ).folder.wants.wants
            &&& r.folders[id].index == s.folders[id].dispatched(now, r.peers).folder.index
        }),
{
    let t = s.taken_in(now, event);
    let extra = lemma_rest_told(t, now, id);
    let p = t.pumped(now);
    lemma_schedule_all(p, p.engine.ids());
    assert(t.engine.folders.dom().contains(id));
    assert(s.handled(now, event).engine.folders.dom().contains(id));
}

/// After every event, whatever it is about, the want-list of every folder is driven, with the peers
/// as they are after it; and what the event itself asks for comes first.
pub proof fn law_every_event_drives_every_folder(
    s: EngineView,
    now: Timestamp,
    event: EventView,
    id: FolderId,
)
    requires
        s.folders.dom().finite(),
        s.taken_in(now, event).engine.folders.contains_key(id),
    ensures
        ({
            let t = s.taken_in(now, event);
            let r = s.handled(now, event);
            let d = t.engine.folders[id].dispatched(now, t.engine.peers).folder;
            let f = r.engine.folders[id];
            &&& r.engine.folders.contains_key(id)
            &&& f.wants.wants == d.wants.wants
            &&& f == (FolderView { wants: f.wants, statuses: f.statuses, ..d })
            &&& f.wants.changed.len() == 0
            &&& f.statuses.len() == 0
            &&& t.actions.len() <= r.actions.len()
            &&& r.actions.take(t.actions.len() as int) == t.actions
        }),
{
    let t = s.taken_in(now, event);
    lemma_taken_in(s, now, event);
    let extra = lemma_rest_told(t, now, id);
    let r = s.handled(now, event);
    assert(t.engine.folders.dom().contains(id));
    assert(r.engine.folders.dom().contains(id));
    assert(r.actions.take(t.actions.len() as int) =~= t.actions);
}

/// A folder is there after an event exactly if it was there before, or was joined by it.
pub proof fn law_folders_come_by_joining(
    s: EngineView,
    now: Timestamp,
    event: EventView,
    id: FolderId,
)
    requires
        s.folders.dom().finite(),
    ensures
        s.handled(now, event).engine.folders.contains_key(id) <==> s.folders.contains_key(id) || (
        event is FolderJoined && event->FolderJoined_folder == id),
{
    let t = s.taken_in(now, event);
    lemma_taken_in(s, now, event);
    let extra = lemma_rest_told(t, now, id);
    let r = s.handled(now, event).engine;
    assert(r.folders.dom().contains(id) == t.engine.folders.dom().contains(id));
    match event {
        EventView::Tick { fresh_batch_id } => {
            lemma_ids(s);
            lemma_tick_all_dom(
                TickStep { folders: s.folders, used: 0, actions: Seq::empty() },
                s.ids(),
                s.node_id,
                s.peers,
                now,
                fresh_batch_id,
            );
        },
        _ => {},
    }
}

proof fn lemma_tick_all_dom(
    t: TickStep,
    ks: Seq<FolderId>,
    own: NodeId,
    peers: Map<NodeId, Tier>,
    now: Timestamp,
    fresh: BatchId,
)
    requires
        forall|i: int| 0 <= i < ks.len() ==> t.folders.contains_key(#[trigger] ks[i]),
    ensures
        t.tick_all(ks, own, peers, now, fresh).folders.dom() =~= t.folders.dom(),
    decreases ks.len(),
{
    if ks.len() > 0 {
        let u = ks.drop_last();
        assert forall|i: int| 0 <= i < u.len() implies t.folders.contains_key(#[trigger] u[i]) by {
            assert(u[i] == ks[i]);
        }
        lemma_tick_all_dom(t, u, own, peers, now, fresh);
        reveal(TickStep::tick);
        assert(t.folders.contains_key(ks[ks.len() - 1]));
    }
}

/// A folder that was just joined has the rules and the members that it was joined with, works for
/// this machine and is empty: nothing is recorded, pending, wanted, held, waiting or owed.
pub proof fn law_joined_folder_is_empty(s: EngineView, now: Timestamp, event: EventView)
    requires
        event is FolderJoined,
        !s.folders.contains_key(event->FolderJoined_folder),
    ensures
        ({
            let id = event->FolderJoined_folder;
            let f = s.taken_in(now, event).engine.folders[id];
            &&& s.taken_in(now, event).engine.folders == s.folders.insert(id, f)
            &&& s.taken_in(now, event).actions.len() == 0
            &&& f.id == id
            &&& f.rules == event->FolderJoined_rules
            &&& forall|n: NodeId|
                f.members.contains(n) <==> event->FolderJoined_members.contains(n)
            &&& f.index.own == s.node_id
            &&& f.index.host == s.author_host
            &&& f.index.seq == 0
            &&& f.index.announced_seq == 0
            &&& f.index.announced_tracked == 0
            &&& f.index.records.dom() =~= Set::empty()
            &&& f.index.pending.dom() =~= Set::empty()
            &&& f.index.exempt =~= Set::empty()
            &&& f.index.peer_seq.dom() =~= Set::empty()
            &&& f.wants.wants.dom() =~= Set::empty()
            &&& f.deferred.dom() =~= Set::empty()
            &&& f.acked.dom() =~= Set::empty()
            &&& f.catchup =~= Set::empty()
            &&& f.quarantine.items.dom() =~= Set::empty()
            &&& f.quarantine.versions.dom() =~= Set::empty()
            &&& f.quarantine.denied.dom() =~= Set::empty()
            &&& f.window is None
            &&& f.scan is None
            &&& f.paused is None
            &&& f.winner_fallbacks == 0
            &&& f.statuses.len() == 0
        }),
{
}

// ---- who is sent what -------------------------------------------------------

proof fn lemma_connected_among(ms: Seq<NodeId>, own: NodeId, peers: Map<NodeId, Tier>)
    requires
        increasing(ms),
    ensures
        increasing(connected_among(ms, own, peers)),
        forall|n: NodeId| #[trigger]
            connected_among(ms, own, peers).contains(n) <==> ms.contains(n) && n != own
                && peers.contains_key(n),
    decreases ms.len(),
{
    if ms.len() > 0 {
        let t = ms.drop_last();
        let x = ms.last();
        lemma_connected_among(t, own, peers);
        let a = connected_among(t, own, peers);
        let b = connected_among(ms, own, peers);
        assert(ms[ms.len() - 1] == x);
        assert forall|n: NodeId| ms.contains(n) <==> t.contains(n) || n == x by {
            if ms.contains(n) {
                let i = choose|i: int| 0 <= i < ms.len() && ms[i] == n;
                if i < t.len() {
                    assert(t[i] == n);
                }
            }
            if t.contains(n) {
                let i = choose|i: int| 0 <= i < t.len() && t[i] == n;
                assert(ms[i] == n);
            }
        }
        assert forall|n: NodeId| #[trigger] b.contains(n) <==> ms.contains(n) && n != own
            && peers.contains_key(n) by {
            if b.contains(n) {
                let i = choose|i: int| 0 <= i < b.len() && b[i] == n;
                if i < a.len() {
                    assert(a[i] == n);
                    assert(a.contains(n));
                }
            }
            if a.contains(n) {
                let i = choose|i: int| 0 <= i < a.len() && a[i] == n;
                assert(b[i] == n);
            }
            if b.len() > a.len() {
                assert(b[b.len() - 1] == x);
            }
        }
        assert forall|i: int, j: int| 0 <= i < j < b.len() implies #[trigger] b[i].before(
            #[trigger] b[j],
        ) by {
            assert(b[i] == a[i]);
            if j < a.len() {
                assert(b[j] == a[j]);
            } else {
                assert(a.contains(a[i]));
                let k = choose|k: int| 0 <= k < t.len() && t[k] == a[i];
                assert(ms[k].before(ms[ms.len() - 1]));
            }
        }
    }
}

/// Batches of a folder go to a node exactly if it is a member, is another machine than this one
/// and is connected, on whatever tier; to each once, in the order of members.
pub proof fn law_recipients(f: FolderView, own: NodeId, peers: Map<NodeId, Tier>)
    requires
        f.members.finite(),
    ensures
        increasing(recipients(f, own, peers)),
        recipients(f, own, peers).no_duplicates(),
        forall|n: NodeId| #[trigger]
            recipients(f, own, peers).contains(n) <==> f.members.contains(n) && n != own
                && peers.contains_key(n),
{
    lemma_order_facts(f.members);
    lemma_connected_among(in_order(f.members), own, peers);
    crate::order::lemma_increasing_distinct(recipients(f, own, peers));
}

/// Sending batches to some nodes sends each batch to each node once, batch by batch in their
/// order, and puts every batch into history as sent, once it was sent to all.
pub proof fn law_each_batch_to_each_node(bs: Seq<BatchView>, to: Seq<NodeId>)
    ensures
        sent_actions(bs, to).len() == bs.len() * (to.len() + 1),
        forall|i: int, j: int|
            0 <= i < bs.len() && 0 <= j < to.len() ==> #[trigger] sent_actions(bs, to)[i * (
            to.len() + 1) + j] == (ActionView::Send {
                to: to[j],
                payload: OutboundView::Batch(bs[i]),
            }),
        forall|i: int|
            0 <= i < bs.len() ==> #[trigger] sent_actions(bs, to)[i * (to.len() + 1) + to.len()]
                == (ActionView::RecordBatch {
                batch: bs[i],
                role: BatchRole::Sent,
                decision: None,
            }),
    decreases bs.len(),
{
    let m = to.len() + 1;
    if bs.len() == 0 {
        assert(bs.len() * m == 0) by (nonlinear_arith)
            requires
                bs.len() == 0,
        ;
    } else {
        let t = bs.drop_last();
        law_each_batch_to_each_node(t, to);
        let a = sent_actions(t, to);
        let b = send_actions(bs.last(), to);
        let r = sent_actions(bs, to);
        assert(bs.len() * m == t.len() * m + m) by (nonlinear_arith)
            requires
                bs.len() == t.len() + 1,
        ;
        assert(r =~= a + b + seq![history(bs.last(), BatchRole::Sent)]);
        assert forall|i: int, j: int| 0 <= i < bs.len() && 0 <= j < to.len() implies #[trigger] r[i
            * m + j] == (ActionView::Send { to: to[j], payload: OutboundView::Batch(bs[i]) }) by {
            if i < t.len() {
                assert(i * m + j < t.len() * m) by (nonlinear_arith)
                    requires
                        i + 1 <= t.len(),
                        j < m,
                        m > 0,
                ;
                assert(i * m + j >= 0) by (nonlinear_arith)
                    requires
                        i >= 0,
                        j >= 0,
                        m > 0,
                ;
                assert(r[i * m + j] == a[i * m + j]);
            } else {
                assert(r[i * m + j] == b[j]);
            }
        }
        assert forall|i: int| 0 <= i < bs.len() implies #[trigger] r[i * m + to.len()] == (
        ActionView::RecordBatch { batch: bs[i], role: BatchRole::Sent, decision: None }) by {
            if i < t.len() {
                assert(i * m + to.len() < t.len() * m) by (nonlinear_arith)
                    requires
                        i + 1 <= t.len(),
                        to.len() < m,
                        m > 0,
                ;
                assert(i * m + to.len() >= 0) by (nonlinear_arith)
                    requires
                        i >= 0,
                        m > 0,
                ;
                assert(r[i * m + to.len()] == a[i * m + to.len()]);
            }
        }
    }
}

/// What brings nodes up to date: every batch goes to the node that it is for, and into history as
/// sent; nothing else is asked for.
pub proof fn law_catchup_is_sent_and_recorded(
    l: Seq<(NodeId, Seq<BatchView>)>,
    i: int,
    j: int,
    k: int,
)
    ensures
        0 <= i < l.len() && 0 <= j < l[i].1.len() ==> {
            let a = catchup_actions(l);
            let b = l[i].1[j];
            &&& a.contains(ActionView::Send { to: l[i].0, payload: OutboundView::Batch(b) })
            &&& a.contains(
                ActionView::RecordBatch { batch: b, role: BatchRole::Sent, decision: None },
            )
        },
        0 <= k < catchup_actions(l).len() ==> catchup_actions(l)[k] is Send || catchup_actions(
            l,
        )[k] is RecordBatch,
    decreases l.len(),
{
    if l.len() > 0 {
        let t = l.drop_last();
        let z = l.len() - 1;
        assert(l[z] == l.last());
        let a = catchup_actions(t);
        let to = seq![l.last().0];
        let bs = l.last().1;
        let s = sent_actions(bs, to);
        let r = catchup_actions(l);
        assert(r == a + s);
        law_catchup_is_sent_and_recorded(t, i, j, k);
        law_each_batch_to_each_node(bs, to);
        lemma_sent_kinds(bs, to, k - a.len());
        if 0 <= k < a.len() {
            assert(r[k] == a[k]);
        } else if a.len() <= k < r.len() {
            assert(r[k] == s[k - a.len()]);
        }
        if 0 <= i < l.len() && 0 <= j < l[i].1.len() {
            let b = l[i].1[j];
            let x = ActionView::Send { to: l[i].0, payload: OutboundView::Batch(b) };
            let y = ActionView::RecordBatch { batch: b, role: BatchRole::Sent, decision: None };
            if i < z {
                assert(t[i] == l[i]);
                let m = choose|m: int| 0 <= m < a.len() && a[m] == x;
                assert(r[m] == x);
                let n = choose|n: int| 0 <= n < a.len() && a[n] == y;
                assert(r[n] == y);
            } else {
                assert(to[0] == l.last().0);
                let p = j * (to.len() + 1);
                assert(p == 2 * j && bs.len() * (to.len() + 1) == 2 * bs.len()) by (nonlinear_arith)
                    requires
                        to.len() == 1,
                        p == j * (to.len() + 1),
                ;
                assert(s[j * (to.len() + 1) + 0] == x);
                assert(s[j * (to.len() + 1) + to.len()] == y);
                assert(r[a.len() + p] == s[p]);
                assert(r[a.len() + p + 1] == s[p + 1]);
            }
        }
    }
}

proof fn lemma_sent_kinds(bs: Seq<BatchView>, to: Seq<NodeId>, k: int)
    ensures
        0 <= k < sent_actions(bs, to).len() ==> sent_actions(bs, to)[k] is Send || sent_actions(
            bs,
            to,
        )[k] is RecordBatch,
    decreases bs.len(),
{
    if bs.len() > 0 {
        lemma_sent_kinds(bs.drop_last(), to, k);
    }
}

/// Whether some actions send a batch of a folder with an entry to a node.
pub open spec fn delivers(
    acts: Seq<ActionView>,
    n: NodeId,
    id: FolderId,
    entry: crate::entry::EntryView,
) -> bool {
    exists|i: int|
        0 <= i < acts.len() && (#[trigger] acts[i]) is Send && acts[i]->Send_to == n
            && acts[i]->payload is Batch && (acts[i]->payload->Batch_0).folder == id && (
        acts[i]->payload->Batch_0).entries.contains(entry)
}

/// Whether every batch that some actions send goes to a node that waits for catch-up of its
/// folder, or to a connected member of it other than this machine.
pub open spec fn well_sent(
    acts: Seq<ActionView>,
    folders: Map<FolderId, FolderView>,
    own: NodeId,
    peers: Map<NodeId, Tier>,
) -> bool {
    forall|i: int|
        0 <= i < acts.len() && (#[trigger] acts[i]) is Send && acts[i]->payload is Batch ==> {
            let id = (acts[i]->payload->Batch_0).folder;
            let n = acts[i]->Send_to;
            folders.contains_key(id) && (folders[id].catchup.contains(n) || (
            folders[id].members.contains(n) && n != own && peers.contains_key(n)))
        }
}

proof fn lemma_well_sent_concat(
    a: Seq<ActionView>,
    b: Seq<ActionView>,
    folders: Map<FolderId, FolderView>,
    own: NodeId,
    peers: Map<NodeId, Tier>,
)
    requires
        well_sent(a, folders, own, peers),
        well_sent(b, folders, own, peers),
    ensures
        well_sent(a + b, folders, own, peers),
{
    let c = a + b;
    assert forall|i: int|
        0 <= i < c.len() && (#[trigger] c[i]) is Send && c[i]->payload is Batch implies ({
        let id = (c[i]->payload->Batch_0).folder;
        let n = c[i]->Send_to;
        folders.contains_key(id) && (folders[id].catchup.contains(n) || (
        folders[id].members.contains(n) && n != own && peers.contains_key(n)))
    }) by {
        if i < a.len() {
            assert(c[i] == a[i]);
        } else {
            assert(c[i] == b[i - a.len()]);
        }
    }
}

/// Whether some batches are of a folder.
spec fn all_of(bs: Seq<BatchView>, id: FolderId) -> bool {
    forall|i: int| 0 <= i < bs.len() ==> (#[trigger] bs[i]).folder == id
}

proof fn lemma_sent_well(
    bs: Seq<BatchView>,
    to: Seq<NodeId>,
    id: FolderId,
    folders: Map<FolderId, FolderView>,
    own: NodeId,
    peers: Map<NodeId, Tier>,
)
    requires
        folders.contains_key(id),
        all_of(bs, id),
        forall|n: NodeId| #[trigger]
            to.contains(n) ==> folders[id].catchup.contains(n) || (folders[id].members.contains(n)
                && n != own && peers.contains_key(n)),
    ensures
        well_sent(sent_actions(bs, to), folders, own, peers),
    decreases bs.len(),
{
    if bs.len() > 0 {
        let t = bs.drop_last();
        assert(all_of(t, id)) by {
            assert forall|i: int| 0 <= i < t.len() implies (#[trigger] t[i]).folder == id by {
                assert(bs[i].folder == id);
            }
        }
        lemma_sent_well(t, to, id, folders, own, peers);
        let b = send_actions(bs.last(), to);
        assert(bs[bs.len() - 1].folder == id);
        assert forall|i: int| 0 <= i < b.len() && (#[trigger] b[i]) is Send implies to.contains(
            b[i]->Send_to,
        ) by {
            assert(to[i] == b[i]->Send_to);
        }
        lemma_well_sent_concat(sent_actions(t, to), b, folders, own, peers);
        lemma_well_sent_concat(
            sent_actions(t, to) + b,
            seq![history(bs.last(), BatchRole::Sent)],
            folders,
            own,
            peers,
        );
    }
}

proof fn lemma_catchup_well(
    f: FolderView,
    now: Timestamp,
    base: BatchId,
    ps: Seq<NodeId>,
    folders: Map<FolderId, FolderView>,
    own: NodeId,
    peers: Map<NodeId, Tier>,
)
    requires
        folders.contains_key(f.id),
        forall|i: int| 0 <= i < ps.len() ==> folders[f.id].catchup.contains(#[trigger] ps[i]),
    ensures
        well_sent(catchup_actions(f.catchup_all(now, base, ps)), folders, own, peers),
    decreases ps.len(),
{
    if ps.len() > 0 {
        let t = ps.drop_last();
        assert forall|i: int| 0 <= i < t.len() implies folders[f.id].catchup.contains(
            #[trigger] t[i],
        ) by {
            assert(ps[i] == t[i]);
        }
        lemma_catchup_well(f, now, base, t, folders, own, peers);
        let used = f.catchup_used(now, base, t);
        let bs = f.catchup_for(now, base.after(used as int), ps.last());
        if bs.len() > 0 {
            let l = f.catchup_all(now, base, ps);
            assert(l.drop_last() =~= f.catchup_all(now, base, t));
            assert(folders[f.id].catchup.contains(ps[ps.len() - 1]));
            assert(all_of(bs, f.id));
            lemma_sent_well(bs, seq![ps.last()], f.id, folders, own, peers);
            lemma_well_sent_concat(
                catchup_actions(l.drop_last()),
                sent_actions(bs, seq![ps.last()]),
                folders,
                own,
                peers,
            );
        }
    }
}

proof fn lemma_tick_well(
    t: TickStep,
    id: FolderId,
    own: NodeId,
    peers: Map<NodeId, Tier>,
    now: Timestamp,
    fresh: BatchId,
    folders: Map<FolderId, FolderView>,
)
    requires
        well_sent(t.actions, folders, own, peers),
        folders.contains_key(id),
        t.folders[id] == folders[id],
        folders[id].id == id,
        folders[id].members.finite(),
        folders[id].catchup.finite(),
    ensures
        well_sent(t.tick(id, own, peers, now, fresh).actions, folders, own, peers),
        forall|k: FolderId| k != id ==> #[trigger] t.tick(id, own, peers, now, fresh).folders[k]
            == t.folders[k],
{
    reveal(TickStep::tick);
    let f0 = t.folders[id];
    let overdue = overdue_among(f0.wants.wants, f0.wants.paths(), now);
    let f1 = FolderView { wants: f0.wants.with_states(overdue, WantState::Wanted), ..f0 };
    let base = fresh.after(t.used as int);
    let ps = in_order(f1.catchup);
    lemma_order_facts(f1.catchup);
    let f2 = FolderView { catchup: Set::empty(), ..f1 };
    let used = plus_used(t.used, f1.catchup_used(now, base, ps));
    let base2 = fresh.after(used as int);
    let f3 = f2.ticked(now, base2);
    let c = catchup_actions(f1.catchup_all(now, base, ps));
    lemma_catchup_well(f1, now, base, ps, folders, own, peers);
    let a = stalled_actions(id, overdue);
    lemma_well_sent_concat(t.actions, a, folders, own, peers);
    lemma_well_sent_concat(t.actions + a, c, folders, own, peers);
    let acts = t.actions + a + c;
    match f2.tick_result(now, base2) {
        TickedView::Nothing => {},
        TickedView::Sent(bs) => {
            assert(f3.members == f0.members);
            law_recipients(f3, own, peers);
            assert(all_of(bs, id));
            lemma_sent_well(bs, recipients(f3, own, peers), id, folders, own, peers);
            lemma_well_sent_concat(
                acts,
                sent_actions(bs, recipients(f3, own, peers)),
                folders,
                own,
                peers,
            );
        },
        TickedView::Paused { first, snapshot, status } => {
            let x = if first {
                paused_actions(snapshot)
            } else {
                Seq::empty()
            };
            lemma_well_sent_concat(acts, x, folders, own, peers);
            lemma_well_sent_concat(acts + x, seq![status_action(id, status)], folders, own, peers);
        },
    }
}

proof fn lemma_tick_all_well(
    t: TickStep,
    ks: Seq<FolderId>,
    own: NodeId,
    peers: Map<NodeId, Tier>,
    now: Timestamp,
    fresh: BatchId,
)
    requires
        well_sent(t.actions, t.folders, own, peers),
        ks.no_duplicates(),
        forall|i: int| 0 <= i < ks.len() ==> t.folders.contains_key(#[trigger] ks[i]),
        sendable(t.folders),
    ensures
        well_sent(t.tick_all(ks, own, peers, now, fresh).actions, t.folders, own, peers),
        forall|k: FolderId|
            !ks.contains(k) ==> #[trigger] t.tick_all(ks, own, peers, now, fresh).folders[k]
                == t.folders[k],
    decreases ks.len(),
{
    if ks.len() > 0 {
        let u = ks.drop_last();
        let k = ks[ks.len() - 1];
        assert forall|i: int| 0 <= i < u.len() implies t.folders.contains_key(#[trigger] u[i]) by {
            assert(u[i] == ks[i]);
        }
        lemma_tick_all_well(t, u, own, peers, now, fresh);
        assert(!u.contains(k)) by {
            if u.contains(k) {
                let i = choose|i: int| 0 <= i < u.len() && u[i] == k;
                assert(ks[i] == ks[ks.len() - 1]);
            }
        }
        let m = t.tick_all(u, own, peers, now, fresh);
        assert(t.folders.contains_key(k));
        lemma_tick_well(m, k, own, peers, now, fresh, t.folders);
        assert forall|j: FolderId| !ks.contains(j) implies #[trigger] t.tick_all(
            ks,
            own,
            peers,
            now,
            fresh,
        ).folders[j] == t.folders[j] by {
            assert(!u.contains(j)) by {
                if u.contains(j) {
                    let i = choose|i: int| 0 <= i < u.len() && u[i] == j;
                    assert(ks[i] == j);
                }
            }
            assert(ks[ks.len() - 1] == k);
        }
    }
}

/// Whether folders stand under their identifiers, with finitely many members and peers to bring up
/// to date.
pub open spec fn sendable(folders: Map<FolderId, FolderView>) -> bool {
    forall|id: FolderId| #[trigger]
        folders.contains_key(id) ==> folders[id].id == id && folders[id].members.finite()
            && folders[id].catchup.finite()
}

/// Whatever happens, a batch is sent only to a node that waits for catch-up of its folder, or to a
/// connected member of it other than this machine; and only a tick or an approval sends any.
pub proof fn law_batches_go_to_members_only(s: EngineView, now: Timestamp, event: EventView)
    requires
        s.folders.dom().finite(),
        sendable(s.folders),
    ensures
        well_sent(s.handled(now, event).actions, s.folders, s.node_id, s.peers),
        forall|i: int|
            0 <= i < s.handled(now, event).actions.len() && (#[trigger] s.handled(
                now,
                event,
            ).actions[i]) is Send && s.handled(now, event).actions[i]->payload is Batch
                ==> event is Tick || event is Approve,
{
    let t = s.taken_in(now, event);
    lemma_taken_in(s, now, event);
    let id = arbitrary_folder();
    let extra = lemma_rest_told(t, now, id);
    assert(well_sent(extra, s.folders, s.node_id, s.peers));
    match event {
        EventView::Tick { fresh_batch_id } => {
            lemma_ids(s);
            lemma_order_facts(s.folders.dom());
            lemma_tick_all_well(
                TickStep { folders: s.folders, used: 0, actions: Seq::empty() },
                s.ids(),
                s.node_id,
                s.peers,
                now,
                fresh_batch_id,
            );
        },
        EventView::Approve { folder, batch } => {
            if s.folders.contains_key(folder) {
                lemma_approve_well(s, now, folder, batch);
            }
        },
        _ => {
            lemma_no_batches(s, now, event);
        },
    }
    lemma_well_sent_concat(t.actions, extra, s.folders, s.node_id, s.peers);
    if !(event is Tick) && !(event is Approve) {
        let r = s.handled(now, event).actions;
        assert forall|i: int|
            0 <= i < r.len() && (#[trigger] r[i]) is Send && r[i]->payload is Batch implies false by {
            if i < t.actions.len() {
                assert(r[i] == t.actions[i]);
            } else {
                assert(r[i] == extra[i - t.actions.len()]);
            }
        }
    }
}

/// Whether some actions send no batch.
spec fn batchless(acts: Seq<ActionView>) -> bool {
    forall|i: int|
        0 <= i < acts.len() ==> !((#[trigger] acts[i]) is Send && acts[i]->payload is Batch)
}

proof fn lemma_no_batches(s: EngineView, now: Timestamp, event: EventView)
    requires
        !(event is Tick),
        !(event is Approve),
    ensures
        batchless(s.taken_in(now, event).actions),
{
    match event {
        EventView::PeerConnected { peer, tier } => {
            lemma_greetings_hello(s.folders, s.ids(), peer);
        },
        EventView::FolderJoined { folder, rules, members } => {},
        EventView::PeerTierChanged { peer, tier } => {},
        EventView::PeerDisconnected { peer } => {},
        _ => {
            let id = event.folder()->0;
            if s.folders.contains_key(id) {
                lemma_step_no_batches(s.folders[id], id, s.node_id, s.peers, now, event);
            }
        },
    }
}

proof fn lemma_batchless_concat(a: Seq<ActionView>, b: Seq<ActionView>)
    requires
        batchless(a),
        batchless(b),
    ensures
        batchless(a + b),
{
    let c = a + b;
    assert forall|i: int| 0 <= i < c.len() implies !((#[trigger] c[i]) is Send
        && c[i]->payload is Batch) by {
        if i < a.len() {
            assert(c[i] == a[i]);
        } else {
            assert(c[i] == b[i - a.len()]);
        }
    }
}

proof fn lemma_receive_no_batches(f: FolderView, now: Timestamp, from: NodeId, batch: BatchView)
    ensures
        batchless(receive_actions(f, now, from, batch)),
{
    crate::laws::receiving::law_batch_is_answered(f, now, from, batch);
    let a = receive_actions(f, now, from, batch);
    assert forall|i: int| 0 <= i < a.len() implies !((#[trigger] a[i]) is Send
        && a[i]->payload is Batch) by {
        if i < a.len() - 2 {
            assert(a[i] is StatusChanged);
        } else if i == a.len() - 2 {
            assert(a[i] == a[a.len() - 2]);
        } else {
            assert(a[i] == a[a.len() - 1]);
        }
    }
}

proof fn lemma_scan_no_batches(
    f: FolderView,
    id: FolderId,
    now: Timestamp,
    path: Seq<u8>,
    state: ScanState,
)
    ensures
        batchless(scanned_actions(f, id, now, path, state)),
{
    let r = f.scan_result(now, path, state);
    let n = f.scanned(now, path, state).winner_fallbacks;
    let a = match r.change {
        Some(c) => seq![ActionView::IndexChanged { folder: id, record: c.record }],
        None => Seq::empty(),
    };
    let b = match r.status {
        Some(s) => seq![status_action(id, s)],
        None => Seq::empty(),
    };
    let c = if n > f.winner_fallbacks {
        seq![status_action(id, StatusView::WinnerFallback { count: n })]
    } else {
        Seq::empty()
    };
    assert(scanned_actions(f, id, now, path, state) == a + b + c);
    lemma_batchless_concat(a, b);
    lemma_batchless_concat(a + b, c);
}

proof fn lemma_revert_no_batches(f: FolderView, id: FolderId)
    ensures
        batchless(revert_actions(f, id)),
{
    match f.revert_result() {
        Some(r) => {
            let a = reverted_actions(id, r.reverted);
            let b = trash_actions(id, r.trash);
            assert forall|i: int| 0 <= i < a.len() implies !((#[trigger] a[i]) is Send
                && a[i]->payload is Batch) by {
                match r.reverted[i].restored {
                    Some(record) => {},
                    None => {},
                }
            }
            lemma_batchless_concat(a, b);
            let c = a + b;
            let d = revert_actions(f, id);
            assert forall|i: int| 0 <= i < d.len() implies !((#[trigger] d[i]) is Send
                && d[i]->payload is Batch) by {
                if i < c.len() {
                    assert(d[i] == c[i]);
                }
            }
        },
        None => {},
    }
}

#[verifier::rlimit(40)]
proof fn lemma_step_no_batches(
    f: FolderView,
    id: FolderId,
    own: NodeId,
    peers: Map<NodeId, Tier>,
    now: Timestamp,
    event: EventView,
)
    requires
        !(event is Approve),
    ensures
        batchless(folder_step(f, id, own, peers, now, event).actions),
{
    match event {
        EventView::BatchReceived { from, batch } => {
            lemma_receive_no_batches(f, now, from, batch);
        },
        EventView::Scanned { folder, path, state } => {
            lemma_scan_no_batches(f, id, now, path, state);
        },
        EventView::Fetched { folder, path, hash, version, outcome } => {
            crate::laws::outcomes::law_fetch_report_is_answered(
                f,
                id,
                now,
                path,
                version,
                outcome,
            );
        },
        EventView::Revert { folder } => {
            lemma_revert_no_batches(f, id);
        },
        EventView::Applied { folder, path, version, outcome } => {
            let l = f.applied(now, path, version, outcome).records;
            lemma_records_no_batches(id, l);
        },
        EventView::ScanFinished { folder } => {
            match f.scan {
                Some(seen) => {
                    lemma_changes_no_batches(id, f.scan_swept(now, seen).changes);
                },
                None => {},
            }
        },
        EventView::Deny { folder, batch } => {
            lemma_deny_no_batches(f, id, own, peers, now, folder, batch);
        },
        EventView::RulesChanged { folder, rules } => {
            lemma_statuses_no_batches(id, f.ruled_result(rules));
        },
        EventView::ScanStarted { folder } => {},
        EventView::ScanAborted { folder } => {},
        EventView::DecisionReceived { from, decision } => {},
        EventView::HaveUpToReceived { from, folder, seq } => {},
        EventView::FetchProgress { folder, path, hash, version } => {},
        EventView::WantRestored { folder, want } => {},
        _ => {
            assert(folder_step(f, id, own, peers, now, event).actions.len() == 0);
        },
    }
}

proof fn lemma_deny_no_batches(
    f: FolderView,
    id: FolderId,
    own: NodeId,
    peers: Map<NodeId, Tier>,
    now: Timestamp,
    folder: FolderId,
    batch: BatchId,
)
    ensures
        batchless(
            folder_step(f, id, own, peers, now, EventView::Deny { folder, batch }).actions,
        ),
{
    let d = folder_step(f, id, own, peers, now, EventView::Deny { folder, batch }).actions;
    if f.quarantine.items.contains_key(batch) {
        let l = f.denial(now, batch).changes;
        lemma_changes_no_batches(id, l);
        let x = seq![status_action(id, StatusView::Denied { batch, paths: l.len() })];
        lemma_batchless_concat(change_actions(id, l), x);
        assert(d =~= change_actions(id, l) + x);
    }
}

proof fn lemma_records_no_batches(id: FolderId, l: Seq<crate::index::RecordView>)
    ensures
        batchless(record_actions(id, l)),
{
}

proof fn lemma_changes_no_batches(id: FolderId, l: Seq<crate::index::ChangeView>)
    ensures
        batchless(change_actions(id, l)),
{
}

proof fn lemma_statuses_no_batches(id: FolderId, l: Seq<StatusView>)
    ensures
        batchless(status_actions(id, l)),
{
}

proof fn arbitrary_folder() -> (id: FolderId) {
    vstd::pervasive::arbitrary::<FolderId>()
}

proof fn lemma_greetings_hello(
    folders: Map<FolderId, FolderView>,
    ks: Seq<FolderId>,
    peer: NodeId,
)
    ensures
        forall|i: int|
            0 <= i < greetings(folders, ks, peer).len() ==> (#[trigger] greetings(
                folders,
                ks,
                peer,
            )[i]) is Send && greetings(folders, ks, peer)[i]->payload is HaveUpTo,
    decreases ks.len(),
{
    if ks.len() > 0 {
        lemma_greetings_hello(folders, ks.drop_last(), peer);
    }
}

proof fn lemma_approve_well(s: EngineView, now: Timestamp, id: FolderId, batch: BatchId)
    requires
        s.folders.contains_key(id),
        sendable(s.folders),
    ensures
        well_sent(
            approved_actions(s.folders[id], id, s.node_id, s.peers, now, batch),
            s.folders,
            s.node_id,
            s.peers,
        ),
{
    let f = s.folders[id];
    let w = f.approve(now, batch);
    if w.approved is Sent {
        crate::laws::folder::law_approval_sends(f, now, batch);
        law_recipients(w.folder, s.node_id, s.peers);
        let bs = w.approved->Sent_0;
        assert(all_of(bs, id));
        let to = recipients(w.folder, s.node_id, s.peers);
        lemma_sent_well(bs, to, id, s.folders, s.node_id, s.peers);
        let x = seq![status_action(id, StatusView::Unpaused { batch })];
        lemma_well_sent_concat(sent_actions(bs, to), x, s.folders, s.node_id, s.peers);
        assert(approved_actions(f, id, s.node_id, s.peers, now, batch) =~= sent_actions(bs, to)
            + x);
    }
}

} // verus!
