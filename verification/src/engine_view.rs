//! What the engine's state stands for, and how each event changes it.

use crate::batch::{BatchDecisionView, BatchRole, BatchView, DecisionView};
use crate::entry::{ContentHash, EntryView, Observed};
use crate::folder::{ApplyOutcome, ScanState};
use crate::folder_view::{
    ApprovedView, DisplaceView, FolderView, HostStepView, StatusView, TickedView,
};
use crate::id::{BatchId, FolderId, NodeId};
use crate::index::{ChangeView, RecordView, RevertedView};
use crate::order::in_order;
use crate::rules::Rules;
use crate::time::Timestamp;
use crate::version::Vector;
use crate::want::{
    distinct, overdue_among, served_among, FetchReport, Tier, WantListView, WantState, WantView,
};
use vstd::prelude::*;

verus! {

/// What a message for a peer stands for.
pub enum OutboundView {
    Batch(BatchView),
    Decision(BatchDecisionView),
    HaveUpTo { folder: FolderId, seq: u64 },
}

/// What an event stands for.
pub enum EventView {
    Tick { fresh_batch_id: BatchId },
    FolderJoined { folder: FolderId, rules: Rules, members: Seq<NodeId> },
    RulesChanged { folder: FolderId, rules: Rules },
    Scanned { folder: FolderId, path: Seq<u8>, state: ScanState },
    ScanStarted { folder: FolderId },
    ScanFinished { folder: FolderId },
    ScanAborted { folder: FolderId },
    PeerConnected { peer: NodeId, tier: Tier },
    PeerTierChanged { peer: NodeId, tier: Tier },
    PeerDisconnected { peer: NodeId },
    BatchReceived { from: NodeId, batch: BatchView },
    DecisionReceived { from: NodeId, decision: BatchDecisionView },
    HaveUpToReceived { from: NodeId, folder: FolderId, seq: u64 },
    Fetched {
        folder: FolderId,
        path: Seq<u8>,
        hash: ContentHash,
        version: Vector,
        outcome: FetchReport,
    },
    FetchProgress { folder: FolderId, path: Seq<u8>, hash: ContentHash, version: Vector },
    WantRestored { folder: FolderId, want: WantView },
    Applied { folder: FolderId, path: Seq<u8>, version: Vector, outcome: ApplyOutcome },
    Approve { folder: FolderId, batch: BatchId },
    Deny { folder: FolderId, batch: BatchId },
    Revert { folder: FolderId },
}

/// What an action stands for.
pub enum ActionView {
    WakeAt(Timestamp),
    Send { to: NodeId, payload: OutboundView },
    Fetch {
        folder: FolderId,
        path: Seq<u8>,
        version: Vector,
        hash: ContentHash,
        size: u64,
        from: NodeId,
    },
    Write {
        folder: FolderId,
        path: Seq<u8>,
        entry: EntryView,
        expected: Option<Observed>,
        displace: DisplaceView,
    },
    Remove {
        folder: FolderId,
        path: Seq<u8>,
        expected: Option<Observed>,
        displace: DisplaceView,
    },
    SetMeta {
        folder: FolderId,
        path: Seq<u8>,
        expected: Option<Observed>,
        mtime_ns: i64,
        executable: bool,
    },
    MoveToTrash { folder: FolderId, path: Seq<u8> },
    RecordBatch { batch: BatchView, role: BatchRole, decision: Option<DecisionView> },
    IndexChanged { folder: FolderId, record: RecordView },
    IndexRemoved { folder: FolderId, path: Seq<u8> },
    WantChanged { folder: FolderId, path: Seq<u8>, want: Option<WantView> },
    StatusChanged { folder: FolderId, status: StatusView },
}

impl EventView {
    /// The folder that an event is about, unless it is about all of them.
    pub open spec fn folder(self) -> Option<FolderId> {
        match self {
            EventView::Tick { fresh_batch_id } => None,
            EventView::FolderJoined { folder, rules, members } => None,
            EventView::PeerConnected { peer, tier } => None,
            EventView::PeerTierChanged { peer, tier } => None,
            EventView::PeerDisconnected { peer } => None,
            EventView::RulesChanged { folder, rules } => Some(folder),
            EventView::Scanned { folder, path, state } => Some(folder),
            EventView::ScanStarted { folder } => Some(folder),
            EventView::ScanFinished { folder } => Some(folder),
            EventView::ScanAborted { folder } => Some(folder),
            EventView::BatchReceived { from, batch } => Some(batch.folder),
            EventView::DecisionReceived { from, decision } => Some(decision.folder),
            EventView::HaveUpToReceived { from, folder, seq } => Some(folder),
            EventView::Fetched { folder, path, hash, version, outcome } => Some(folder),
            EventView::FetchProgress { folder, path, hash, version } => Some(folder),
            EventView::WantRestored { folder, want } => Some(folder),
            EventView::Applied { folder, path, version, outcome } => Some(folder),
            EventView::Approve { folder, batch } => Some(folder),
            EventView::Deny { folder, batch } => Some(folder),
            EventView::Revert { folder } => Some(folder),
        }
    }
}

// ---- actions for lists ------------------------------------------------------

/// The report of one status.
pub open spec fn status_action(folder: FolderId, status: StatusView) -> ActionView {
    ActionView::StatusChanged { folder, status }
}

/// The reports of some statuses.
pub open spec fn status_actions(folder: FolderId, l: Seq<StatusView>) -> Seq<ActionView> {
    Seq::new(l.len(), |i: int| status_action(folder, l[i]))
}

/// The reports of some local changes.
pub open spec fn change_actions(folder: FolderId, l: Seq<ChangeView>) -> Seq<ActionView> {
    Seq::new(l.len(), |i: int| ActionView::IndexChanged { folder, record: l[i].record })
}

/// The reports of some records.
pub open spec fn record_actions(folder: FolderId, l: Seq<RecordView>) -> Seq<ActionView> {
    Seq::new(l.len(), |i: int| ActionView::IndexChanged { folder, record: l[i] })
}

/// The reports of some undone paths.
pub open spec fn reverted_actions(folder: FolderId, l: Seq<RevertedView>) -> Seq<ActionView> {
    Seq::new(
        l.len(),
        |i: int|
            match l[i].restored {
                Some(record) => ActionView::IndexChanged { folder, record },
                None => ActionView::IndexRemoved { folder, path: l[i].path },
            },
    )
}

/// The moves of some files to the trash.
pub open spec fn trash_actions(folder: FolderId, l: Seq<Seq<u8>>) -> Seq<ActionView> {
    Seq::new(l.len(), |i: int| ActionView::MoveToTrash { folder, path: l[i] })
}

/// The reports of some stalled paths.
pub open spec fn stalled_actions(folder: FolderId, l: Seq<Seq<u8>>) -> Seq<ActionView> {
    Seq::new(l.len(), |i: int| status_action(folder, StatusView::Stalled { path: l[i] }))
}

/// The reports of some changed wants.
pub open spec fn want_actions(folder: FolderId, l: Seq<(Seq<u8>, Option<WantView>)>) -> Seq<
    ActionView,
> {
    Seq::new(l.len(), |i: int| ActionView::WantChanged { folder, path: l[i].0, want: l[i].1 })
}

/// What the index believes is at a path.
pub open spec fn believed(f: FolderView, path: Seq<u8>) -> Option<Observed> {
    match f.index.live(path) {
        Some(r) => Some(r.entry.observed()),
        None => None,
    }
}

/// What the host is asked to do for one step.
pub open spec fn step_action(folder: FolderId, f: FolderView, step: HostStepView) -> ActionView {
    match step {
        HostStepView::Fetch { path, version, hash, size, from } => ActionView::Fetch {
            folder,
            path,
            version,
            hash,
            size,
            from,
        },
        HostStepView::Write { path, entry, expected, displace } => ActionView::Write {
            folder,
            path,
            entry,
            expected: believed(f, path),
            displace,
        },
        HostStepView::Remove { path, expected, displace } => ActionView::Remove {
            folder,
            path,
            expected: believed(f, path),
            displace,
        },
        HostStepView::SetMeta { path, mtime_ns, executable } => ActionView::SetMeta {
            folder,
            path,
            expected: believed(f, path),
            mtime_ns,
            executable,
        },
    }
}

/// What the host is asked to do for some steps.
pub open spec fn step_actions(folder: FolderId, f: FolderView, l: Seq<HostStepView>) -> Seq<
    ActionView,
> {
    Seq::new(l.len(), |i: int| step_action(folder, f, l[i]))
}

/// The sending of one batch to some peers.
pub open spec fn send_actions(batch: BatchView, to: Seq<NodeId>) -> Seq<ActionView> {
    Seq::new(
        to.len(),
        |i: int| ActionView::Send { to: to[i], payload: OutboundView::Batch(batch) },
    )
}

/// The entry of a batch in history.
pub open spec fn history(batch: BatchView, role: BatchRole) -> ActionView {
    ActionView::RecordBatch { batch, role, decision: None }
}

/// The sending of some batches to some peers, each recorded.
pub open spec fn sent_actions(batches: Seq<BatchView>, to: Seq<NodeId>) -> Seq<ActionView>
    decreases batches.len(),
{
    if batches.len() == 0 {
        Seq::empty()
    } else {
        sent_actions(batches.drop_last(), to) + send_actions(batches.last(), to) + seq![
            history(batches.last(), BatchRole::Sent),
        ]
    }
}

/// The sending of catch-up batches, each recorded.
pub open spec fn catchup_actions(l: Seq<(NodeId, Seq<BatchView>)>) -> Seq<ActionView>
    decreases l.len(),
{
    if l.len() == 0 {
        Seq::empty()
    } else {
        catchup_actions(l.drop_last()) + sent_actions(l.last().1, seq![l.last().0])
    }
}

/// The entries of paused batches in history.
pub open spec fn paused_actions(batches: Seq<BatchView>) -> Seq<ActionView> {
    Seq::new(batches.len(), |i: int| history(batches[i], BatchRole::Paused))
}

/// The connected ones of some members, other than this machine.
pub open spec fn connected_among(
    ms: Seq<NodeId>,
    own: NodeId,
    peers: Map<NodeId, Tier>,
) -> Seq<NodeId>
    decreases ms.len(),
{
    if ms.len() == 0 {
        Seq::empty()
    } else {
        let rest = connected_among(ms.drop_last(), own, peers);
        if ms.last() != own && peers.contains_key(ms.last()) {
            rest.push(ms.last())
        } else {
            rest
        }
    }
}

/// The members that batches of a folder go to.
pub open spec fn recipients(f: FolderView, own: NodeId, peers: Map<NodeId, Tier>) -> Seq<NodeId> {
    connected_among(in_order(f.members), own, peers)
}

/// A folder's state and what is to be done.
pub struct FolderStep {
    pub folder: FolderView,
    pub actions: Seq<ActionView>,
}

/// What a received batch leads to.
pub open spec fn receive_actions(f: FolderView, now: Timestamp, from: NodeId, batch: BatchView) -> Seq<
    ActionView,
> {
    let w = f.received(now, batch);
    let r = w.received;
    let id = batch.folder;
    let fallback = if r.set.fallbacks > 0 {
        seq![
            status_action(
                id,
                StatusView::WinnerFallback { count: w.folder.winner_fallbacks },
            ),
        ]
    } else {
        Seq::empty()
    };
    let duplicates = if r.set.duplicates > 0 {
        seq![
            status_action(
                id,
                StatusView::DuplicatePaths { batch: batch.id, count: r.set.duplicates },
            ),
        ]
    } else {
        Seq::empty()
    };
    let joined = if r.joined > 0 {
        seq![status_action(id, StatusView::JoinedHeld { batch: batch.id, count: r.joined })]
    } else {
        Seq::empty()
    };
    let held = match r.held {
        Some(reason) => seq![
            status_action(
                id,
                StatusView::Held {
                    batch: batch.id,
                    source: batch.source,
                    reason,
                    summary: r.summary,
                    paths: r.set.items.len(),
                },
            ),
        ],
        None => Seq::empty(),
    };
    fallback + duplicates + joined + held + seq![
        ActionView::Send {
            to: from,
            payload: OutboundView::Decision(
                BatchDecisionView {
                    batch: batch.id,
                    folder: id,
                    decision: r.decision,
                    seq_high: w.folder.index.watermark(from).contiguous,
                },
            ),
        },
        ActionView::RecordBatch {
            batch,
            role: BatchRole::Received,
            decision: Some(r.decision),
        },
    ]
}

/// What a scan report leads to.
pub open spec fn scanned_actions(
    f: FolderView,
    id: FolderId,
    now: Timestamp,
    path: Seq<u8>,
    state: ScanState,
) -> Seq<ActionView> {
    let r = f.scan_result(now, path, state);
    let after = f.scanned(now, path, state);
    (match r.change {
        Some(c) => seq![ActionView::IndexChanged { folder: id, record: c.record }],
        None => Seq::empty(),
    }) + (match r.status {
        Some(s) => seq![status_action(id, s)],
        None => Seq::empty(),
    }) + (if after.winner_fallbacks > f.winner_fallbacks {
        seq![
            status_action(id, StatusView::WinnerFallback { count: after.winner_fallbacks }),
        ]
    } else {
        Seq::empty()
    })
}

/// What a fetch report leads to.
pub open spec fn fetched_actions(
    f: FolderView,
    id: FolderId,
    now: Timestamp,
    path: Seq<u8>,
    version: Vector,
    outcome: FetchReport,
) -> Seq<ActionView> {
    let r = f.fetch_result(now, path, version, outcome);
    (if r.state == Some(WantState::GaveUp) {
        seq![status_action(id, StatusView::GaveUp { path })]
    } else {
        Seq::empty()
    }) + (match r.unrecoverable {
        Some(c) => seq![
            ActionView::IndexChanged { folder: id, record: c.record },
            status_action(id, StatusView::Unrecoverable { path }),
        ],
        None => Seq::empty(),
    })
}

/// What an approval leads to.
pub open spec fn approved_actions(
    f: FolderView,
    id: FolderId,
    own: NodeId,
    peers: Map<NodeId, Tier>,
    now: Timestamp,
    batch: BatchId,
) -> Seq<ActionView> {
    let w = f.approve(now, batch);
    match w.approved {
        ApprovedView::Released(set) => seq![
            status_action(
                id,
                StatusView::Released {
                    batch,
                    items: match set {
                        Some(s) => s.items.len(),
                        None => 0,
                    },
                },
            ),
        ],
        ApprovedView::Sent(batches) => sent_actions(
            batches,
            recipients(w.folder, own, peers),
        ).push(status_action(id, StatusView::Unpaused { batch })),
        ApprovedView::Unknown => seq![status_action(id, StatusView::UnknownBatch { batch })],
    }
}

/// What a revert leads to.
pub open spec fn revert_actions(f: FolderView, id: FolderId) -> Seq<ActionView> {
    match f.revert_result() {
        Some(r) => (reverted_actions(id, r.reverted) + trash_actions(id, r.trash)).push(
            status_action(
                id,
                StatusView::Reverted {
                    batch: r.batch,
                    trashed: r.trash.len(),
                    refetch: r.refetch,
                },
            ),
        ),
        None => seq![status_action(id, StatusView::NotPaused)],
    }
}

/// How an event changes the folder that it is about.
pub open spec fn folder_step(
    f: FolderView,
    id: FolderId,
    own: NodeId,
    peers: Map<NodeId, Tier>,
    now: Timestamp,
    event: EventView,
) -> FolderStep {
    match event {
        EventView::RulesChanged { folder, rules } => FolderStep {
            folder: f.ruled(rules),
            actions: status_actions(id, f.ruled_result(rules)),
        },
        EventView::Scanned { folder, path, state } => FolderStep {
            folder: f.scanned(now, path, state),
            actions: scanned_actions(f, id, now, path, state),
        },
        EventView::ScanStarted { folder } => FolderStep {
            folder: FolderView { scan: Some(Set::empty()), ..f },
            actions: Seq::empty(),
        },
        EventView::ScanFinished { folder } => FolderStep {
            folder: f.scan_finished(now),
            actions: match f.scan {
                Some(seen) => change_actions(id, f.scan_swept(now, seen).changes),
                None => seq![status_action(id, StatusView::ScanNotOpen)],
            },
        },
        EventView::ScanAborted { folder } => FolderStep {
            folder: FolderView { scan: None, ..f },
            actions: match f.scan {
                Some(seen) => Seq::empty(),
                None => seq![status_action(id, StatusView::ScanNotOpen)],
            },
        },
        EventView::BatchReceived { from, batch } => FolderStep {
            folder: f.received(now, batch).folder,
            actions: receive_actions(f, now, from, batch),
        },
        EventView::DecisionReceived { from, decision } => FolderStep {
            folder: f.acknowledged(from, decision.seq_high),
            actions: Seq::empty(),
        },
        EventView::HaveUpToReceived { from, folder, seq } => FolderStep {
            folder: FolderView {
                acked: f.acked.insert(from, seq),
                catchup: f.catchup.insert(from),
                ..f
            },
            actions: Seq::empty(),
        },
        EventView::Fetched { folder, path, hash, version, outcome } => FolderStep {
            folder: f.fetched(now, path, version, outcome),
            actions: fetched_actions(f, id, now, path, version, outcome),
        },
        EventView::FetchProgress { folder, path, hash, version } => FolderStep {
            folder: FolderView { wants: f.wants.progressed(now, path, version), ..f },
            actions: Seq::empty(),
        },
        EventView::WantRestored { folder, want } => FolderStep {
            folder: FolderView { wants: f.wants.restored(want), ..f },
            actions: Seq::empty(),
        },
        EventView::Applied { folder, path, version, outcome } => FolderStep {
            folder: f.applied(now, path, version, outcome).folder,
            actions: record_actions(id, f.applied(now, path, version, outcome).records),
        },
        EventView::Approve { folder, batch } => FolderStep {
            folder: f.approve(now, batch).folder,
            actions: approved_actions(f, id, own, peers, now, batch),
        },
        EventView::Deny { folder, batch } => if f.quarantine.items.contains_key(batch) {
            FolderStep {
                folder: f.denial(now, batch).folder,
                actions: change_actions(id, f.denial(now, batch).changes).push(
                    status_action(
                        id,
                        StatusView::Denied { batch, paths: f.denial(now, batch).changes.len() },
                    ),
                ),
            }
        } else {
            FolderStep {
                folder: f,
                actions: seq![status_action(id, StatusView::UnknownBatch { batch })],
            }
        },
        EventView::Revert { folder } => FolderStep {
            folder: f.reverted(now),
            actions: revert_actions(f, id),
        },
        _ => FolderStep { folder: f, actions: Seq::empty() },
    }
}

// ---- the engine -------------------------------------------------------------

/// What an engine stands for.
pub struct EngineView {
    pub node_id: NodeId,
    pub author_host: Seq<u8>,
    pub folders: Map<FolderId, FolderView>,
    pub peers: Map<NodeId, Tier>,
    /// The last wake-up asked for, by folder.
    pub woke: Map<FolderId, Timestamp>,
    /// The time of the event being handled.
    pub now_hint: Timestamp,
}

/// An engine and what it asks for.
pub struct EngineStep {
    pub engine: EngineView,
    pub actions: Seq<ActionView>,
}

/// Folders and what is asked for them.
pub struct FoldersStep {
    pub folders: Map<FolderId, FolderView>,
    pub actions: Seq<ActionView>,
}

/// A count of batch identifiers, which starts over after the largest.
pub open spec fn plus_used(used: u128, n: nat) -> u128 {
    ((used + n) % (u128::MAX + 1)) as u128
}

/// Folders, how many batch identifiers were used, and what is asked for.
pub struct TickStep {
    pub folders: Map<FolderId, FolderView>,
    pub used: u128,
    pub actions: Seq<ActionView>,
}

impl FoldersStep {
    /// After one folder's want-list was driven.
    #[verifier::opaque]
    pub open spec fn pump(
        self,
        id: FolderId,
        peers: Map<NodeId, Tier>,
        now: Timestamp,
    ) -> FoldersStep {
        let d = self.folders[id].dispatched(now, peers);
        let f = d.folder;
        let changed = distinct(f.wants.changed);
        FoldersStep {
            folders: self.folders.insert(
                id,
                FolderView {
                    wants: WantListView { changed: Seq::empty(), ..f.wants },
                    statuses: Seq::empty(),
                    ..f
                },
            ),
            actions: self.actions + step_actions(id, f, d.host) + record_actions(id, d.adopted)
                + want_actions(
                id,
                Seq::new(changed.len(), |i: int| (changed[i], f.wants.get(changed[i]))),
            ) + status_actions(id, f.statuses),
        }
    }

    /// After the want-lists of some folders were driven, in turn.
    pub open spec fn pump_all(
        self,
        ks: Seq<FolderId>,
        peers: Map<NodeId, Tier>,
        now: Timestamp,
    ) -> FoldersStep
        decreases ks.len(),
    {
        if ks.len() == 0 {
            self
        } else {
            self.pump_all(ks.drop_last(), peers, now).pump(ks.last(), peers, now)
        }
    }
}

impl TickStep {
    /// After a tick of one folder: overdue wants, catch-up, and the batch window.
    #[verifier::opaque]
    pub open spec fn tick(
        self,
        id: FolderId,
        own: NodeId,
        peers: Map<NodeId, Tier>,
        now: Timestamp,
        fresh: BatchId,
    ) -> TickStep {
        let f0 = self.folders[id];
        let overdue = overdue_among(f0.wants.wants, f0.wants.paths(), now);
        let f1 = FolderView { wants: f0.wants.with_states(overdue, WantState::Wanted), ..f0 };
        let base = fresh.after(self.used as int);
        let ps = in_order(f1.catchup);
        let f2 = FolderView { catchup: Set::empty(), ..f1 };
        let used = plus_used(self.used, f1.catchup_used(now, base, ps));
        let base2 = fresh.after(used as int);
        let f3 = f2.ticked(now, base2);
        let actions = self.actions + stalled_actions(id, overdue) + catchup_actions(
            f1.catchup_all(now, base, ps),
        );
        match f2.tick_result(now, base2) {
            TickedView::Nothing => TickStep {
                folders: self.folders.insert(id, f3),
                used,
                actions,
            },
            TickedView::Sent(batches) => TickStep {
                folders: self.folders.insert(id, f3),
                used: plus_used(used, batches.len()),
                actions: actions + sent_actions(batches, recipients(f3, own, peers)),
            },
            TickedView::Paused { first, snapshot, status } => TickStep {
                folders: self.folders.insert(id, f3),
                used: if first {
                    plus_used(used, 1)
                } else {
                    used
                },
                actions: actions + (if first {
                    paused_actions(snapshot)
                } else {
                    Seq::empty()
                }) + seq![status_action(id, status)],
            },
        }
    }

    /// After a tick of some folders, in turn.
    pub open spec fn tick_all(
        self,
        ks: Seq<FolderId>,
        own: NodeId,
        peers: Map<NodeId, Tier>,
        now: Timestamp,
        fresh: BatchId,
    ) -> TickStep
        decreases ks.len(),
    {
        if ks.len() == 0 {
            self
        } else {
            self.tick_all(ks.drop_last(), own, peers, now, fresh).tick(
                ks.last(),
                own,
                peers,
                now,
                fresh,
            )
        }
    }
}

/// Telling a peer how far its records reach here, for some folders.
pub open spec fn greetings(
    folders: Map<FolderId, FolderView>,
    ks: Seq<FolderId>,
    peer: NodeId,
) -> Seq<ActionView>
    decreases ks.len(),
{
    if ks.len() == 0 {
        Seq::empty()
    } else {
        let rest = greetings(folders, ks.drop_last(), peer);
        let f = folders[ks.last()];
        if f.members.contains(peer) {
            rest.push(
                ActionView::Send {
                    to: peer,
                    payload: OutboundView::HaveUpTo {
                        folder: ks.last(),
                        seq: f.index.watermark(peer).contiguous,
                    },
                },
            )
        } else {
            rest
        }
    }
}

/// A folder after a peer went away.
pub open spec fn without_peer(f: FolderView, peer: NodeId) -> FolderView {
    FolderView {
        wants: f.wants.with_states(
            served_among(f.wants.wants, f.wants.paths(), peer),
            WantState::Wanted,
        ),
        ..f
    }
}

impl EngineView {
    /// An engine without folders.
    pub open spec fn initial(node_id: NodeId, author_host: Seq<u8>) -> EngineView {
        EngineView {
            node_id,
            author_host,
            folders: Map::empty(),
            peers: Map::empty(),
            woke: Map::empty(),
            now_hint: Timestamp(0),
        }
    }

    /// An engine with stored folders, after a restart.
    pub open spec fn restored(self, l: Seq<FolderView>) -> EngineView
        decreases l.len(),
    {
        if l.len() == 0 {
            self
        } else {
            let s = self.restored(l.drop_last());
            EngineView { folders: s.folders.insert(l.last().id, l.last().restarted()), ..s }
        }
    }

    /// The folders in order.
    pub open spec fn ids(self) -> Seq<FolderId> {
        in_order(self.folders.dom())
    }

    /// The engine after an event was taken in, before the want-lists are driven.
    pub open spec fn taken_in(self, now: Timestamp, event: EventView) -> EngineStep {
        let s = EngineView { now_hint: now, ..self };
        match event {
            EventView::Tick { fresh_batch_id } => {
                let t = TickStep { folders: s.folders, used: 0, actions: Seq::empty() }.tick_all(
                    s.ids(),
                    s.node_id,
                    s.peers,
                    now,
                    fresh_batch_id,
                );
                EngineStep {
                    engine: EngineView { folders: t.folders, woke: Map::empty(), ..s },
                    actions: t.actions,
                }
            },
            EventView::FolderJoined { folder, rules, members } => if s.folders.contains_key(
                folder,
            ) {
                EngineStep {
                    engine: s,
                    actions: seq![status_action(folder, StatusView::AlreadyJoined)],
                }
            } else {
                EngineStep {
                    engine: EngineView {
                        folders: s.folders.insert(
                            folder,
                            FolderView::initial(
                                folder,
                                rules,
                                members.to_set(),
                                s.node_id,
                                s.author_host,
                            ),
                        ),
                        ..s
                    },
                    actions: Seq::empty(),
                }
            },
            EventView::PeerConnected { peer, tier } => EngineStep {
                engine: EngineView { peers: s.peers.insert(peer, tier), ..s },
                actions: greetings(s.folders, s.ids(), peer),
            },
            EventView::PeerTierChanged { peer, tier } => EngineStep {
                engine: EngineView { peers: s.peers.insert(peer, tier), ..s },
                actions: Seq::empty(),
            },
            EventView::PeerDisconnected { peer } => EngineStep {
                engine: EngineView {
                    peers: s.peers.remove(peer),
                    folders: Map::new(
                        |id: FolderId| s.folders.contains_key(id),
                        |id: FolderId| without_peer(s.folders[id], peer),
                    ),
                    ..s
                },
                actions: Seq::empty(),
            },
            _ => {
                let id = event.folder()->0;
                if s.folders.contains_key(id) {
                    let t = folder_step(s.folders[id], id, s.node_id, s.peers, now, event);
                    EngineStep {
                        engine: EngineView { folders: s.folders.insert(id, t.folder), ..s },
                        actions: t.actions,
                    }
                } else {
                    EngineStep {
                        engine: s,
                        actions: seq![status_action(id, StatusView::UnknownFolder)],
                    }
                }
            },
        }
    }
}

impl EngineStep {
    /// After the want-list of every folder was driven.
    pub open spec fn pumped(self, now: Timestamp) -> EngineStep {
        let p = FoldersStep { folders: self.engine.folders, actions: self.actions }.pump_all(
            self.engine.ids(),
            self.engine.peers,
            now,
        );
        EngineStep {
            engine: EngineView { folders: p.folders, ..self.engine },
            actions: p.actions,
        }
    }

    /// After a wake-up was asked for one folder, if its due time is news.
    pub open spec fn schedule(self, id: FolderId) -> EngineStep {
        let e = self.engine;
        let f = e.folders[id];
        if f.catchup != Set::<NodeId>::empty() {
            EngineStep {
                engine: EngineView { woke: e.woke.remove(id), ..e },
                actions: self.actions.push(ActionView::WakeAt(e.now_hint)),
            }
        } else {
            match f.due() {
                Some(due) => if e.woke.contains_key(id) && e.woke[id] == due {
                    self
                } else {
                    EngineStep {
                        engine: EngineView { woke: e.woke.insert(id, due), ..e },
                        actions: self.actions.push(ActionView::WakeAt(due)),
                    }
                },
                None => EngineStep {
                    engine: EngineView { woke: e.woke.remove(id), ..e },
                    ..self
                },
            }
        }
    }

    /// After wake-ups were asked for some folders, in turn.
    pub open spec fn schedule_all(self, ks: Seq<FolderId>) -> EngineStep
        decreases ks.len(),
    {
        if ks.len() == 0 {
            self
        } else {
            self.schedule_all(ks.drop_last()).schedule(ks.last())
        }
    }
}

impl EngineView {
    /// The engine after an event, and what it asks for.
    pub open spec fn handled(self, now: Timestamp, event: EventView) -> EngineStep {
        let p = self.taken_in(now, event).pumped(now);
        p.schedule_all(p.engine.ids())
    }
}

} // verus!
