//! Laws of the engine.

use crate::engine_view::{
    folder_step, status_action, ActionView, EngineStep, EngineView, EventView, FoldersStep,
    TickStep,
};
use crate::folder_view::{FolderView, StatusView};
use crate::id::{BatchId, FolderId, NodeId};
use crate::laws::folder::{
    law_applying_decides_nothing, law_approval_sends, law_decisions_keep_the_index_well_formed,
    law_denial_decides_nothing, law_dispatch_decides_nothing, law_fetch_report_decides_nothing,
    law_paused_sends_nothing, law_receiving_decides_nothing, law_release_writes_nothing,
    law_revert_puts_back, law_scan_decides_nothing, law_scan_end_decides_nothing, undecided,
};
use crate::laws::index::law_initial_well_formed;
use crate::order::{in_order, lemma_order_facts};
use crate::time::Timestamp;
use crate::want::{overdue_among, Tier, WantState};
use vstd::prelude::*;

verus! {

/// Whether an event is one of the two that a person decides a pause with: approving the paused
/// batch, or reverting.
pub open spec fn decides(event: EventView, id: FolderId, batch: BatchId) -> bool {
    event == (EventView::Approve { folder: id, batch }) || event == (EventView::Revert { folder: id })
}

// ---- one event --------------------------------------------------------------

/// An event about a folder changes that folder only.
pub proof fn law_event_is_local(s: EngineView, now: Timestamp, event: EventView, other: FolderId)
    requires
        event.folder() is Some,
        event.folder()->0 != other,
    ensures
        s.taken_in(now, event).engine.folders.contains_key(other) == s.folders.contains_key(other),
        s.folders.contains_key(other) ==> s.taken_in(now, event).engine.folders[other]
            == s.folders[other],
        s.taken_in(now, event).engine.peers == s.peers,
{
}

/// An event about a folder that was not joined is answered so, and changes no folder.
pub proof fn law_unknown_folder(s: EngineView, now: Timestamp, event: EventView)
    requires
        event.folder() is Some,
        event !is FolderJoined,
        !s.folders.contains_key(event.folder()->0),
    ensures
        s.taken_in(now, event).engine == (EngineView { now_hint: now, ..s }),
        s.taken_in(now, event).actions == seq![
            status_action(event.folder()->0, StatusView::UnknownFolder),
        ],
{
}

/// A folder is joined once: joining it again is answered so, and changes nothing.
pub proof fn law_joined_once(s: EngineView, now: Timestamp, event: EventView)
    requires
        event is FolderJoined,
    ensures
        ({
            let id = event->FolderJoined_folder;
            let t = s.taken_in(now, event);
            &&& t.engine.folders.contains_key(id)
            &&& s.folders.contains_key(id) ==> t.engine.folders == s.folders && t.actions == seq![
                status_action(id, StatusView::AlreadyJoined),
            ]
            &&& !s.folders.contains_key(id) ==> t.engine.folders[id].index.well_formed()
        }),
{
    law_initial_well_formed(s.node_id, s.author_host);
}

/// Whether every folder of an engine stands under its identifier, works for this node and has a
/// well-formed index.
pub open spec fn folders_sound(folders: Map<FolderId, FolderView>, own: NodeId) -> bool {
    &&& folders.dom().finite()
    &&& forall|id: FolderId| #[trigger]
        folders.contains_key(id) ==> folders[id].id == id && folders[id].index.own == own
            && folders[id].index.well_formed()
}

/// What an event does to the folder it is about: unless it decides the pause, the folder stays
/// undecided; in any case the index stays well formed.
pub proof fn law_step_of_a_folder(
    f: FolderView,
    id: FolderId,
    own: NodeId,
    peers: Map<NodeId, Tier>,
    now: Timestamp,
    event: EventView,
)
    ensures
        event !is Approve && event !is Revert ==> undecided(
            f,
            folder_step(f, id, own, peers, now, event).folder,
        ),
        event is Approve && !(f.paused is Some && event->Approve_batch == (f.paused->0).batch)
            ==> undecided(f, folder_step(f, id, own, peers, now, event).folder),
        event is Revert && f.paused is None ==> folder_step(
            f,
            id,
            own,
            peers,
            now,
            event,
        ).folder == f,
        f.index.well_formed() ==> folder_step(
            f,
            id,
            own,
            peers,
            now,
            event,
        ).folder.index.well_formed(),
        folder_step(f, id, own, peers, now, event).folder.id == f.id,
        folder_step(f, id, own, peers, now, event).folder.index.own == f.index.own,
{
    match event {
        EventView::RulesChanged { folder, rules } => {},
        EventView::Scanned { folder, path, state } => {
            law_scan_decides_nothing(f, now, path, state);
        },
        EventView::ScanFinished { folder } => {
            law_scan_end_decides_nothing(f, now);
        },
        EventView::BatchReceived { from, batch } => {
            law_receiving_decides_nothing(f, now, batch);
        },
        EventView::Fetched { folder, path, hash, version, outcome } => {
            law_fetch_report_decides_nothing(f, now, path, version, outcome);
        },
        EventView::Applied { folder, path, version, outcome } => {
            law_applying_decides_nothing(f, now, path, version, outcome);
        },
        EventView::Approve { folder, batch } => {
            if f.quarantine.items.contains_key(batch) {
                law_release_writes_nothing(f, now, batch);
            } else if f.paused is Some && (f.paused->0).batch == batch {
                law_approval_sends(f, now, batch);
            }
            if f.index.well_formed() {
                law_decisions_keep_the_index_well_formed(f, now, batch);
            }
        },
        EventView::Deny { folder, batch } => {
            law_denial_decides_nothing(f, now, batch);
        },
        EventView::Revert { folder } => {
            if f.paused is Some {
                law_revert_puts_back(f, now, Seq::empty());
            }
            if f.index.well_formed() {
                law_decisions_keep_the_index_well_formed(f, now, (f.paused->0).batch);
            }
        },
        _ => {},
    }
}

// ---- every folder -----------------------------------------------------------

/// Whether a folder that is paused stayed undecided, and any folder kept its identity and a
/// well-formed index.
pub open spec fn carried(a: FolderView, b: FolderView) -> bool {
    &&& a.paused is Some ==> undecided(a, b)
    &&& b.id == a.id
    &&& b.index.own == a.index.own
    &&& a.index.well_formed() ==> b.index.well_formed()
}

/// Whether every folder was carried over.
pub open spec fn all_carried(
    a: Map<FolderId, FolderView>,
    b: Map<FolderId, FolderView>,
) -> bool {
    &&& b.dom() =~= a.dom()
    &&& forall|id: FolderId| #[trigger] a.contains_key(id) ==> carried(a[id], b[id])
}

proof fn lemma_pump_all(
    s: FoldersStep,
    ks: Seq<FolderId>,
    peers: Map<NodeId, Tier>,
    now: Timestamp,
)
    requires
        forall|i: int| 0 <= i < ks.len() ==> s.folders.contains_key(#[trigger] ks[i]),
    ensures
        all_carried(s.folders, s.pump_all(ks, peers, now).folders),
    decreases ks.len(),
{
    if ks.len() > 0 {
        let t = ks.drop_last();
        assert forall|i: int| 0 <= i < t.len() implies s.folders.contains_key(#[trigger] t[i]) by {
            assert(t[i] == ks[i]);
        }
        lemma_pump_all(s, t, peers, now);
        let m = s.pump_all(t, peers, now);
        let id = ks[ks.len() - 1];
        assert(s.folders.contains_key(id));
        reveal(FoldersStep::pump);
        law_dispatch_decides_nothing(m.folders[id], now, peers);
        let r = m.pump(id, peers, now);
        assert(m.folders.dom().contains(id));
        assert(r.folders.dom() =~= s.folders.dom());
        assert forall|k: FolderId| #[trigger] s.folders.contains_key(k) implies carried(
            s.folders[k],
            r.folders[k],
        ) by {}
    }
}

proof fn lemma_tick(
    s: TickStep,
    id: FolderId,
    own: NodeId,
    peers: Map<NodeId, Tier>,
    now: Timestamp,
    fresh: BatchId,
)
    requires
        s.folders.contains_key(id),
    ensures
        all_carried(s.folders, s.tick(id, own, peers, now, fresh).folders),
{
    reveal(TickStep::tick);
    let f0 = s.folders[id];
    let overdue = overdue_among(f0.wants.wants, f0.wants.paths(), now);
    let f1 = FolderView { wants: f0.wants.with_states(overdue, WantState::Wanted), ..f0 };
    let f2 = FolderView { catchup: Set::empty(), ..f1 };
    let used = crate::engine_view::plus_used(
        s.used,
        f1.catchup_used(now, fresh.after(s.used as int), in_order(f1.catchup)),
    );
    let base2 = fresh.after(used as int);
    law_paused_sends_nothing(f2, now, base2);
    if f2.index.well_formed() {
        law_decisions_keep_the_index_well_formed(f2, now, base2);
    }
    let t = s.tick(id, own, peers, now, fresh);
    assert(t.folders == s.folders.insert(id, f2.ticked(now, base2)));
    assert(t.folders.dom() =~= s.folders.dom());
}

proof fn lemma_tick_all(
    s: TickStep,
    ks: Seq<FolderId>,
    own: NodeId,
    peers: Map<NodeId, Tier>,
    now: Timestamp,
    fresh: BatchId,
)
    requires
        forall|i: int| 0 <= i < ks.len() ==> s.folders.contains_key(#[trigger] ks[i]),
    ensures
        all_carried(s.folders, s.tick_all(ks, own, peers, now, fresh).folders),
    decreases ks.len(),
{
    if ks.len() > 0 {
        let t = ks.drop_last();
        assert forall|i: int| 0 <= i < t.len() implies s.folders.contains_key(#[trigger] t[i]) by {
            assert(t[i] == ks[i]);
        }
        lemma_tick_all(s, t, own, peers, now, fresh);
        let m = s.tick_all(t, own, peers, now, fresh);
        let id = ks[ks.len() - 1];
        assert(s.folders.contains_key(id));
        assert(m.folders.dom().contains(id));
        lemma_tick(m, id, own, peers, now, fresh);
        let r = m.tick(id, own, peers, now, fresh);
        assert(r.folders.dom() =~= s.folders.dom());
        assert forall|k: FolderId| #[trigger] s.folders.contains_key(k) implies carried(
            s.folders[k],
            r.folders[k],
        ) by {
            assert(m.folders.dom().contains(k));
            assert(m.folders.contains_key(k));
        }
    }
}

/// Asking for wake-ups changes nothing but what is noted of them.
pub proof fn lemma_schedule_all(s: EngineStep, ks: Seq<FolderId>)
    ensures
        s.schedule_all(ks).engine == (EngineView {
            woke: s.schedule_all(ks).engine.woke,
            ..s.engine
        }),
    decreases ks.len(),
{
    if ks.len() > 0 {
        lemma_schedule_all(s, ks.drop_last());
    }
}

/// The folders in order are folders.
pub proof fn lemma_ids(s: EngineView)
    requires
        s.folders.dom().finite(),
    ensures
        forall|i: int| 0 <= i < s.ids().len() ==> s.folders.contains_key(#[trigger] s.ids()[i]),
{
    lemma_order_facts(s.folders.dom());
    assert forall|i: int| 0 <= i < s.ids().len() implies s.folders.contains_key(
        #[trigger] s.ids()[i],
    ) by {
        assert(s.folders.dom().contains(s.ids()[i]));
    }
}

proof fn lemma_pumped(s: EngineStep, now: Timestamp)
    requires
        s.engine.folders.dom().finite(),
    ensures
        ({
            let p = s.pumped(now);
            let r = p.schedule_all(p.engine.ids());
            &&& all_carried(s.engine.folders, r.engine.folders)
            &&& r.engine.peers == s.engine.peers
            &&& r.engine.node_id == s.engine.node_id
            &&& r.engine.author_host == s.engine.author_host
            &&& r.engine.now_hint == s.engine.now_hint
        }),
{
    lemma_ids(s.engine);
    lemma_pump_all(
        FoldersStep { folders: s.engine.folders, actions: s.actions },
        s.engine.ids(),
        s.engine.peers,
        now,
    );
    let p = s.pumped(now);
    lemma_schedule_all(p, p.engine.ids());
}

/// A paused folder stays paused, for the same batch and since the same time, and announces nothing
/// more, whatever happens to this machine, until the paused batch is approved or the folder
/// reverted.
pub proof fn law_paused_until_decided(
    s: EngineView,
    now: Timestamp,
    event: EventView,
    id: FolderId,
)
    requires
        s.folders.dom().finite(),
        s.folders.contains_key(id),
        s.folders[id].paused is Some,
        !decides(event, id, (s.folders[id].paused->0).batch),
    ensures
        s.handled(now, event).engine.folders.contains_key(id),
        undecided(s.folders[id], s.handled(now, event).engine.folders[id]),
{
    let t = s.taken_in(now, event);
    lemma_taken_in(s, now, event);
    lemma_pumped(t, now);
    assert(t.engine.folders.contains_key(id));
    let r = s.handled(now, event).engine;
    assert(r.folders.dom().contains(id));
    assert(undecided(s.folders[id], t.engine.folders[id])) by {
        lemma_taken_in_of(s, now, event, id);
    }
}

/// What taking an event in does to one paused folder.
proof fn lemma_taken_in_of(s: EngineView, now: Timestamp, event: EventView, id: FolderId)
    requires
        s.folders.dom().finite(),
        s.folders.contains_key(id),
        s.folders[id].paused is Some,
        !decides(event, id, (s.folders[id].paused->0).batch),
    ensures
        undecided(s.folders[id], s.taken_in(now, event).engine.folders[id]),
{
    match event {
        EventView::Tick { fresh_batch_id } => {
            lemma_ids(s);
            lemma_tick_all(
                TickStep { folders: s.folders, used: 0, actions: Seq::empty() },
                s.ids(),
                s.node_id,
                s.peers,
                now,
                fresh_batch_id,
            );
        },
        EventView::FolderJoined { folder, rules, members } => {},
        EventView::PeerConnected { peer, tier } => {},
        EventView::PeerTierChanged { peer, tier } => {},
        EventView::PeerDisconnected { peer } => {},
        _ => {
            let k = event.folder()->0;
            if s.folders.contains_key(k) {
                law_step_of_a_folder(s.folders[k], k, s.node_id, s.peers, now, event);
            }
        },
    }
}

/// What taking an event in does to every folder.
pub proof fn lemma_taken_in(s: EngineView, now: Timestamp, event: EventView)
    requires
        s.folders.dom().finite(),
    ensures
        ({
            let t = s.taken_in(now, event).engine;
            &&& t.folders.dom().finite()
            &&& t.node_id == s.node_id
            &&& t.author_host == s.author_host
            &&& t.now_hint == now
            &&& forall|k: FolderId| #[trigger]
                s.folders.contains_key(k) ==> t.folders.contains_key(k) && t.folders[k].id
                    == s.folders[k].id && t.folders[k].index.own == s.folders[k].index.own && (
                s.folders[k].index.well_formed() ==> t.folders[k].index.well_formed())
            &&& forall|k: FolderId|
                !s.folders.contains_key(k) && #[trigger] t.folders.contains_key(k)
                    ==> t.folders[k].id == k && t.folders[k].index.own == s.node_id
                    && t.folders[k].index.well_formed()
        }),
{
    let t = s.taken_in(now, event).engine;
    match event {
        EventView::Tick { fresh_batch_id } => {
            lemma_ids(s);
            lemma_tick_all(
                TickStep { folders: s.folders, used: 0, actions: Seq::empty() },
                s.ids(),
                s.node_id,
                s.peers,
                now,
                fresh_batch_id,
            );
            assert(t.folders.dom() =~= s.folders.dom());
            assert forall|k: FolderId| #[trigger] s.folders.contains_key(k) implies
                t.folders.contains_key(k) by {
                assert(t.folders.dom().contains(k));
            }
            assert forall|k: FolderId| #[trigger] t.folders.contains_key(k) implies
                s.folders.contains_key(k) by {
                assert(t.folders.dom().contains(k));
            }
        },
        EventView::FolderJoined { folder, rules, members } => {
            law_initial_well_formed(s.node_id, s.author_host);
        },
        EventView::PeerConnected { peer, tier } => {},
        EventView::PeerTierChanged { peer, tier } => {},
        EventView::PeerDisconnected { peer } => {
            assert(t.folders.dom() =~= s.folders.dom());
        },
        _ => {
            let k = event.folder()->0;
            if s.folders.contains_key(k) {
                law_step_of_a_folder(s.folders[k], k, s.node_id, s.peers, now, event);
                assert(t.folders.dom() =~= s.folders.dom());
            }
        },
    }
}

/// Every folder of an engine stays under its identifier, works for this node and keeps a
/// well-formed index, whatever event is handled.
pub proof fn law_folders_stay_sound(s: EngineView, now: Timestamp, event: EventView)
    requires
        folders_sound(s.folders, s.node_id),
    ensures
        folders_sound(s.handled(now, event).engine.folders, s.node_id),
        s.handled(now, event).engine.node_id == s.node_id,
        s.handled(now, event).engine.author_host == s.author_host,
{
    let t = s.taken_in(now, event);
    lemma_taken_in(s, now, event);
    lemma_pumped(t, now);
    let r = s.handled(now, event).engine;
    assert forall|id: FolderId| #[trigger] r.folders.contains_key(id) implies r.folders[id].id
        == id && r.folders[id].index.own == s.node_id && r.folders[id].index.well_formed() by {
        assert(r.folders.dom().contains(id));
        assert(t.engine.folders.dom().contains(id));
        assert(t.engine.folders.contains_key(id));
        if s.folders.contains_key(id) {
        }
    }
}

/// A new engine is sound, and so is one that starts from stored folders, which it holds under
/// their identifiers with their records, quarantine, pause and rules as they were.
pub proof fn law_restored_sound(own: NodeId, host: Seq<u8>, l: Seq<FolderView>)
    requires
        forall|i: int|
            0 <= i < l.len() ==> (#[trigger] l[i]).index.well_formed() && l[i].index.own == own,
    ensures
        ({
            let s = EngineView::initial(own, host).restored(l);
            &&& folders_sound(s.folders, own)
            &&& s.node_id == own
            &&& s.peers == Map::<NodeId, Tier>::empty()
            &&& forall|i: int|
                0 <= i < l.len() ==> s.folders.contains_key((#[trigger] l[i]).id)
            &&& l.len() > 0 ==> s.folders[l.last().id].index == l.last().index
                && s.folders[l.last().id].quarantine == l.last().quarantine
                && s.folders[l.last().id].paused == l.last().paused
                && s.folders[l.last().id].rules == l.last().rules
        }),
    decreases l.len(),
{
    if l.len() > 0 {
        let t = l.drop_last();
        assert forall|i: int| 0 <= i < t.len() implies (#[trigger] t[i]).index.well_formed()
            && t[i].index.own == own by {
            assert(t[i] == l[i]);
        }
        law_restored_sound(own, host, t);
        let a = EngineView::initial(own, host).restored(t);
        let s = EngineView::initial(own, host).restored(l);
        assert(l[l.len() - 1] == l.last());
        assert forall|i: int| 0 <= i < l.len() implies s.folders.contains_key(
            (#[trigger] l[i]).id,
        ) by {
            if i < t.len() {
                assert(a.folders.contains_key(t[i].id));
            }
        }
    }
}

// ---- wake-ups ---------------------------------------------------------------

proof fn lemma_woken(s: EngineStep, ks: Seq<FolderId>, id: FolderId)
    requires
        ks.no_duplicates(),
        ks.contains(id),
    ensures
        ({
            let f = s.engine.folders[id];
            let r = s.schedule_all(ks);
            if f.catchup != Set::<NodeId>::empty() {
                r.actions.contains(ActionView::WakeAt(s.engine.now_hint))
                    && !r.engine.woke.contains_key(id)
            } else {
                match f.due() {
                    Some(due) => r.engine.woke.contains_key(id) && r.engine.woke[id] == due && (!(
                    s.engine.woke.contains_key(id) && s.engine.woke[id] == due)
                        ==> r.actions.contains(ActionView::WakeAt(due))),
                    None => !r.engine.woke.contains_key(id),
                }
            }
        }),
    decreases ks.len(),
{
    let t = ks.drop_last();
    let k = ks.last();
    let a = s.schedule_all(t);
    let r = s.schedule_all(ks);
    lemma_schedule_all(s, t);
    assert forall|i: int, j: int| 0 <= i < t.len() && 0 <= j < t.len() && i != j implies t[i]
        != t[j] by {
        assert(ks[i] != ks[j]);
    }
    if k == id {
        assert(!t.contains(id)) by {
            if t.contains(id) {
                let i = choose|i: int| 0 <= i < t.len() && t[i] == id;
                assert(ks[i] == ks[ks.len() - 1]);
            }
        }
        lemma_untouched(s, t, id);
        if r.actions != a.actions {
            assert(r.actions[r.actions.len() - 1] == r.actions.last());
        }
    } else {
        assert(t.contains(id)) by {
            let i = choose|i: int| 0 <= i < ks.len() && ks[i] == id;
            assert(t[i] == id);
        }
        lemma_woken(s, t, id);
        assert forall|x: ActionView| a.actions.contains(x) implies #[trigger] r.actions.contains(
            x,
        ) by {
            let i = choose|i: int| 0 <= i < a.actions.len() && a.actions[i] == x;
            assert(r.actions[i] == x);
        }
    }
}

proof fn lemma_untouched(s: EngineStep, ks: Seq<FolderId>, id: FolderId)
    requires
        !ks.contains(id),
    ensures
        s.schedule_all(ks).engine.woke.contains_key(id) == s.engine.woke.contains_key(id),
        s.engine.woke.contains_key(id) ==> s.schedule_all(ks).engine.woke[id]
            == s.engine.woke[id],
    decreases ks.len(),
{
    if ks.len() > 0 {
        let t = ks.drop_last();
        assert(!t.contains(id)) by {
            if t.contains(id) {
                let i = choose|i: int| 0 <= i < t.len() && t[i] == id;
                assert(ks[i] == id);
            }
        }
        assert(ks[ks.len() - 1] != id);
        lemma_untouched(s, t, id);
    }
}

/// No due time is slept through: after every event, each folder with something due has a wake-up
/// noted for exactly that time, which was asked for unless it was noted before; and one that owes
/// a peer catch-up has a wake-up asked for at once.
pub proof fn law_wake_ups_are_asked_for(
    s: EngineView,
    now: Timestamp,
    event: EventView,
    id: FolderId,
)
    requires
        s.folders.dom().finite(),
        s.handled(now, event).engine.folders.contains_key(id),
    ensures
        ({
            let r = s.handled(now, event);
            let f = r.engine.folders[id];
            if f.catchup != Set::<NodeId>::empty() {
                r.actions.contains(ActionView::WakeAt(now))
            } else {
                match f.due() {
                    Some(due) => r.engine.woke.contains_key(id) && r.engine.woke[id] == due && (
                    r.actions.contains(ActionView::WakeAt(due)) || (s.woke.contains_key(id)
                        && s.woke[id] == due && event !is Tick)),
                    None => !r.engine.woke.contains_key(id),
                }
            }
        }),
{
    let t = s.taken_in(now, event);
    lemma_taken_in(s, now, event);
    lemma_pumped(t, now);
    let p = t.pumped(now);
    lemma_schedule_all(p, p.engine.ids());
    lemma_ids(t.engine);
    lemma_pump_all(
        FoldersStep { folders: t.engine.folders, actions: t.actions },
        t.engine.ids(),
        t.engine.peers,
        now,
    );
    assert(p.engine.folders.dom() =~= t.engine.folders.dom());
    lemma_order_facts(p.engine.folders.dom());
    assert(p.engine.folders.dom().contains(id));
    lemma_woken(p, p.engine.ids(), id);
}

} // verus!
