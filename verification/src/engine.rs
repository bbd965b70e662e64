//! The engine: one [`Engine`] a node, which consumes [`Event`]s and returns [`Action`]s.
//!
//! The host stamps every call with the time and generates every fresh identifier. What the engine
//! returns depends on its state and the event alone, and every order is fixed: folders, members
//! and peers by their identifiers, batch entries by sequence number, apply sets by path.

use crate::batch::{Batch, BatchDecision, BatchRole, Decision};
use crate::engine_view::{
    approved_actions, believed, catchup_actions, change_actions, connected_among, fetched_actions,
    folder_step, greetings, history, paused_actions, plus_used, receive_actions, recipients,
    record_actions, revert_actions, reverted_actions, scanned_actions, send_actions, sent_actions,
    stalled_actions, status_action, status_actions, step_action, step_actions, trash_actions,
    want_actions, without_peer, ActionView, EngineStep, EngineView, EventView, FoldersStep,
    OutboundView, TickStep,
};
use crate::entry::{ContentHash, Entry, Observed};
use crate::folder::{
    ApplyOutcome, Approved, Displace, FolderState, FolderStatus, HostStep, ScanState, Ticked,
};
use crate::folder_view::StatusView;
use crate::id::{BatchId, FolderId, HostName, NodeId};
use crate::index::{IndexRecord, LocalChange, Reverted};
use crate::order::{in_order, lemma_order_facts};
use crate::ordmap::{OrdMap, Value};
use crate::path::RelPath;
use crate::rules::Rules;
use crate::time::Timestamp;
use crate::version::Version;
use crate::want::{FetchReport, Tier, Want, WantState};
use vstd::prelude::*;

verus! {

/// What the host tells the engine about this machine.
#[derive(Clone, Debug, PartialEq, Eq, Hash)]
pub struct NodeConfig {
    pub node_id: NodeId,
    /// This machine's host name.
    pub author_host: HostName,
}

/// A message for a peer.
#[derive(Clone, Debug, PartialEq, Eq)]
pub enum Outbound {
    Batch(Batch),
    Decision(BatchDecision),
    /// The highest sequence number of the recipient's records that we hold.
    HaveUpTo { folder: FolderId, seq: u64 },
}

impl View for Outbound {
    type V = OutboundView;

    open spec fn view(&self) -> OutboundView {
        match self {
            Outbound::Batch(b) => OutboundView::Batch(b@),
            Outbound::Decision(d) => OutboundView::Decision(d@),
            Outbound::HaveUpTo { folder, seq } => OutboundView::HaveUpTo {
                folder: *folder,
                seq: *seq,
            },
        }
    }
}

/// Everything the host can tell the engine.
#[derive(Clone, Debug, PartialEq, Eq)]
pub enum Event {
    /// The timer that the engine asked for fired. Batches form only here.
    Tick { fresh_batch_id: BatchId },
    /// This machine is a member of `folder`.
    FolderJoined { folder: FolderId, rules: Rules, members: Vec<NodeId> },
    RulesChanged { folder: FolderId, rules: Rules },
    /// The host reports one path.
    Scanned { folder: FolderId, path: RelPath, state: ScanState },
    /// A full scan begins.
    ScanStarted { folder: FolderId },
    /// A full scan ended; live records it did not report are deleted.
    ScanFinished { folder: FolderId },
    /// The host stopped a scan.
    ScanAborted { folder: FolderId },
    PeerConnected { peer: NodeId, tier: Tier },
    PeerTierChanged { peer: NodeId, tier: Tier },
    PeerDisconnected { peer: NodeId },
    /// A batch arrived from a peer.
    BatchReceived { from: NodeId, batch: Batch },
    /// A peer decided on one of our batches.
    DecisionReceived { from: NodeId, decision: BatchDecision },
    /// A peer told us the highest sequence number of ours that it holds.
    HaveUpToReceived { from: NodeId, folder: FolderId, seq: u64 },
    /// The host finished a fetch. `hash` is what was requested; `version` is the want that the
    /// report belongs to.
    Fetched {
        folder: FolderId,
        path: RelPath,
        hash: ContentHash,
        version: Version,
        outcome: FetchReport,
    },
    /// Bytes are arriving for a fetch.
    FetchProgress { folder: FolderId, path: RelPath, hash: ContentHash, version: Version },
    /// A stored want comes back after a restart.
    WantRestored { folder: FolderId, want: Box<Want> },
    /// The host finished a commit.
    Applied { folder: FolderId, path: RelPath, version: Version, outcome: ApplyOutcome },
    Approve { folder: FolderId, batch: BatchId },
    Deny { folder: FolderId, batch: BatchId },
    Revert { folder: FolderId },
}

impl View for Event {
    type V = EventView;

    open spec fn view(&self) -> EventView {
        match self {
            Event::Tick { fresh_batch_id } => EventView::Tick { fresh_batch_id: *fresh_batch_id },
            Event::FolderJoined { folder, rules, members } => EventView::FolderJoined {
                folder: *folder,
                rules: *rules,
                members: members@,
            },
            Event::RulesChanged { folder, rules } => EventView::RulesChanged {
                folder: *folder,
                rules: *rules,
            },
            Event::Scanned { folder, path, state } => EventView::Scanned {
                folder: *folder,
                path: path@,
                state: *state,
            },
            Event::ScanStarted { folder } => EventView::ScanStarted { folder: *folder },
            Event::ScanFinished { folder } => EventView::ScanFinished { folder: *folder },
            Event::ScanAborted { folder } => EventView::ScanAborted { folder: *folder },
            Event::PeerConnected { peer, tier } => EventView::PeerConnected {
                peer: *peer,
                tier: *tier,
            },
            Event::PeerTierChanged { peer, tier } => EventView::PeerTierChanged {
                peer: *peer,
                tier: *tier,
            },
            Event::PeerDisconnected { peer } => EventView::PeerDisconnected { peer: *peer },
            Event::BatchReceived { from, batch } => EventView::BatchReceived {
                from: *from,
                batch: batch@,
            },
            Event::DecisionReceived { from, decision } => EventView::DecisionReceived {
                from: *from,
                decision: decision@,
            },
            Event::HaveUpToReceived { from, folder, seq } => EventView::HaveUpToReceived {
                from: *from,
                folder: *folder,
                seq: *seq,
            },
            Event::Fetched { folder, path, hash, version, outcome } => EventView::Fetched {
                folder: *folder,
                path: path@,
                hash: *hash,
                version: version@,
                outcome: *outcome,
            },
            Event::FetchProgress { folder, path, hash, version } => EventView::FetchProgress {
                folder: *folder,
                path: path@,
                hash: *hash,
                version: version@,
            },
            Event::WantRestored { folder, want } => EventView::WantRestored {
                folder: *folder,
                want: (**want)@,
            },
            Event::Applied { folder, path, version, outcome } => EventView::Applied {
                folder: *folder,
                path: path@,
                version: version@,
                outcome: *outcome,
            },
            Event::Approve { folder, batch } => EventView::Approve {
                folder: *folder,
                batch: *batch,
            },
            Event::Deny { folder, batch } => EventView::Deny { folder: *folder, batch: *batch },
            Event::Revert { folder } => EventView::Revert { folder: *folder },
        }
    }
}

impl Event {
    /// The folder that an event is about, unless it is about all of them.
    fn folder(&self) -> (r: Option<FolderId>)
        ensures
            r == self@.folder(),
    {
        match self {
            Event::Tick { .. } => None,
            Event::FolderJoined { .. } => None,
            Event::PeerConnected { .. } => None,
            Event::PeerTierChanged { .. } => None,
            Event::PeerDisconnected { .. } => None,
            Event::RulesChanged { folder, .. } => Some(*folder),
            Event::Scanned { folder, .. } => Some(*folder),
            Event::ScanStarted { folder } => Some(*folder),
            Event::ScanFinished { folder } => Some(*folder),
            Event::ScanAborted { folder } => Some(*folder),
            Event::BatchReceived { batch, .. } => Some(batch.folder),
            Event::DecisionReceived { decision, .. } => Some(decision.folder),
            Event::HaveUpToReceived { folder, .. } => Some(*folder),
            Event::Fetched { folder, .. } => Some(*folder),
            Event::FetchProgress { folder, .. } => Some(*folder),
            Event::WantRestored { folder, .. } => Some(*folder),
            Event::Applied { folder, .. } => Some(*folder),
            Event::Approve { folder, .. } => Some(*folder),
            Event::Deny { folder, .. } => Some(*folder),
            Event::Revert { folder } => Some(*folder),
        }
    }
}

/// Everything the engine can ask the host to do.
#[derive(Clone, Debug, PartialEq, Eq)]
pub enum Action {
    /// Deliver an [`Event::Tick`] no later than this.
    WakeAt(Timestamp),
    /// Send a message to a connected peer.
    Send { to: NodeId, payload: Outbound },
    /// Pull one file from one source. The request names the content; `version` is for the report
    /// back.
    Fetch {
        folder: FolderId,
        path: RelPath,
        version: Version,
        hash: ContentHash,
        size: u64,
        from: NodeId,
    },
    /// Commit as one operation: check `expected` against the path, displace any existing file,
    /// move the content in.
    Write {
        folder: FolderId,
        path: RelPath,
        entry: Entry,
        expected: Option<Observed>,
        displace: Displace,
    },
    /// Delete as one operation: check `expected`, move the file aside.
    Remove { folder: FolderId, path: RelPath, expected: Option<Observed>, displace: Displace },
    /// Set modification time and executable bit after the same check.
    SetMeta {
        folder: FolderId,
        path: RelPath,
        expected: Option<Observed>,
        mtime_ns: i64,
        executable: bool,
    },
    /// Move a local file aside with nothing to put in its place.
    MoveToTrash { folder: FolderId, path: RelPath },
    /// History.
    RecordBatch { batch: Batch, role: BatchRole, decision: Option<Decision> },
    /// The index changed.
    IndexChanged { folder: FolderId, record: IndexRecord },
    /// A record left the index. Only a revert removes records.
    IndexRemoved { folder: FolderId, path: RelPath },
    /// A want changed or ended.
    WantChanged { folder: FolderId, path: RelPath, want: Option<Box<Want>> },
    /// Something for the user to know.
    StatusChanged { folder: FolderId, status: FolderStatus },
}

impl View for Action {
    type V = ActionView;

    open spec fn view(&self) -> ActionView {
        match self {
            Action::WakeAt(t) => ActionView::WakeAt(*t),
            Action::Send { to, payload } => ActionView::Send { to: *to, payload: payload@ },
            Action::Fetch { folder, path, version, hash, size, from } => ActionView::Fetch {
                folder: *folder,
                path: path@,
                version: version@,
                hash: *hash,
                size: *size,
                from: *from,
            },
            Action::Write { folder, path, entry, expected, displace } => ActionView::Write {
                folder: *folder,
                path: path@,
                entry: entry@,
                expected: *expected,
                displace: displace@,
            },
            Action::Remove { folder, path, expected, displace } => ActionView::Remove {
                folder: *folder,
                path: path@,
                expected: *expected,
                displace: displace@,
            },
            Action::SetMeta { folder, path, expected, mtime_ns, executable } => {
                ActionView::SetMeta {
                    folder: *folder,
                    path: path@,
                    expected: *expected,
                    mtime_ns: *mtime_ns,
                    executable: *executable,
                }
            },
            Action::MoveToTrash { folder, path } => ActionView::MoveToTrash {
                folder: *folder,
                path: path@,
            },
            Action::RecordBatch { batch, role, decision } => ActionView::RecordBatch {
                batch: batch@,
                role: *role,
                decision: decision.deep_view(),
            },
            Action::IndexChanged { folder, record } => ActionView::IndexChanged {
                folder: *folder,
                record: record@,
            },
            Action::IndexRemoved { folder, path } => ActionView::IndexRemoved {
                folder: *folder,
                path: path@,
            },
            Action::WantChanged { folder, path, want } => ActionView::WantChanged {
                folder: *folder,
                path: path@,
                want: match want {
                    Some(w) => Some((**w)@),
                    None => None,
                },
            },
            Action::StatusChanged { folder, status } => ActionView::StatusChanged {
                folder: *folder,
                status: status@,
            },
        }
    }
}

impl DeepView for Action {
    type V = ActionView;

    open spec fn deep_view(&self) -> ActionView {
        self.view()
    }
}

// ---- actions for lists ------------------------------------------------------

/// Adds an action.
fn put(out: &mut Vec<Action>, action: Action)
    ensures
        final(out).deep_view() == old(out).deep_view().push(action@),
{
    out.push(action);
    assert(out.deep_view() =~= old(out).deep_view().push(action@));
}

/// Adds the report of one status.
fn put_status(out: &mut Vec<Action>, folder: FolderId, status: FolderStatus)
    ensures
        final(out).deep_view() == old(out).deep_view().push(status_action(folder, status@)),
{
    put(out, Action::StatusChanged { folder, status });
}

/// Adds the reports of some statuses.
fn put_statuses(out: &mut Vec<Action>, folder: FolderId, list: Vec<FolderStatus>)
    ensures
        final(out).deep_view() == old(out).deep_view() + status_actions(folder, list.deep_view()),
{
    let ghost base = out.deep_view();
    let ghost all = status_actions(folder, list.deep_view());
    let ghost l = list@;
    assert(base + all.take(0) =~= base);
    for status in it: list
        invariant
            it.seq() == l,
            all.len() == l.len(),
            forall|j: int| 0 <= j < l.len() ==> all[j] == status_action(folder, (#[trigger] l[j])@),
            out.deep_view() == base + all.take(it.index() as int),
    {
        put_status(out, folder, status);
        let ghost i = it.index() as int;
        assert(all.take(i + 1) =~= all.take(i).push(all[i]));
        assert(out.deep_view() =~= base + all.take(i + 1));
    }
    assert(all.take(l.len() as int) =~= all);
}

/// Adds the reports of some local changes.
fn put_changes(out: &mut Vec<Action>, folder: FolderId, list: Vec<LocalChange>)
    ensures
        final(out).deep_view() == old(out).deep_view() + change_actions(folder, list.deep_view()),
{
    let ghost base = out.deep_view();
    let ghost all = change_actions(folder, list.deep_view());
    let ghost l = list@;
    assert(base + all.take(0) =~= base);
    for change in it: list
        invariant
            it.seq() == l,
            all.len() == l.len(),
            forall|j: int| 0 <= j < l.len() ==> all[j] == (ActionView::IndexChanged {
                folder,
                record: (#[trigger] l[j]).record@,
            }),
            out.deep_view() == base + all.take(it.index() as int),
    {
        put(out, Action::IndexChanged { folder, record: change.record });
        let ghost i = it.index() as int;
        assert(all.take(i + 1) =~= all.take(i).push(all[i]));
        assert(out.deep_view() =~= base + all.take(i + 1));
    }
    assert(all.take(l.len() as int) =~= all);
}

/// Adds the reports of some records.
fn put_records(out: &mut Vec<Action>, folder: FolderId, list: Vec<IndexRecord>)
    ensures
        final(out).deep_view() == old(out).deep_view() + record_actions(folder, list.deep_view()),
{
    let ghost base = out.deep_view();
    let ghost all = record_actions(folder, list.deep_view());
    let ghost l = list@;
    assert(base + all.take(0) =~= base);
    for record in it: list
        invariant
            it.seq() == l,
            all.len() == l.len(),
            forall|j: int| 0 <= j < l.len() ==> all[j] == (ActionView::IndexChanged {
                folder,
                record: (#[trigger] l[j])@,
            }),
            out.deep_view() == base + all.take(it.index() as int),
    {
        put(out, Action::IndexChanged { folder, record });
        let ghost i = it.index() as int;
        assert(all.take(i + 1) =~= all.take(i).push(all[i]));
        assert(out.deep_view() =~= base + all.take(i + 1));
    }
    assert(all.take(l.len() as int) =~= all);
}

/// Adds the reports of some undone paths.
fn put_reverted(out: &mut Vec<Action>, folder: FolderId, list: Vec<Reverted>)
    ensures
        final(out).deep_view() == old(out).deep_view() + reverted_actions(folder, list.deep_view()),
{
    let ghost base = out.deep_view();
    let ghost all = reverted_actions(folder, list.deep_view());
    let ghost l = list@;
    assert(base + all.take(0) =~= base);
    for write in it: list
        invariant
            it.seq() == l,
            all.len() == l.len(),
            forall|j: int| 0 <= j < l.len() ==> all[j] == (match (#[trigger] l[j])@.restored {
                Some(record) => ActionView::IndexChanged { folder, record },
                None => ActionView::IndexRemoved { folder, path: l[j].path@ },
            }),
            out.deep_view() == base + all.take(it.index() as int),
    {
        match write.restored {
            Some(record) => {
                put(out, Action::IndexChanged { folder, record });
            },
            None => {
                put(out, Action::IndexRemoved { folder, path: write.path });
            },
        }
        let ghost i = it.index() as int;
        assert(all.take(i + 1) =~= all.take(i).push(all[i]));
        assert(out.deep_view() =~= base + all.take(i + 1));
    }
    assert(all.take(l.len() as int) =~= all);
}

/// Adds the moves of some files to the trash.
fn put_trash(out: &mut Vec<Action>, folder: FolderId, list: Vec<RelPath>)
    ensures
        final(out).deep_view() == old(out).deep_view() + trash_actions(folder, list.deep_view()),
{
    let ghost base = out.deep_view();
    let ghost all = trash_actions(folder, list.deep_view());
    let ghost l = list@;
    assert(base + all.take(0) =~= base);
    for path in it: list
        invariant
            it.seq() == l,
            all.len() == l.len(),
            forall|j: int| 0 <= j < l.len() ==> all[j] == (ActionView::MoveToTrash {
                folder,
                path: (#[trigger] l[j])@,
            }),
            out.deep_view() == base + all.take(it.index() as int),
    {
        put(out, Action::MoveToTrash { folder, path });
        let ghost i = it.index() as int;
        assert(all.take(i + 1) =~= all.take(i).push(all[i]));
        assert(out.deep_view() =~= base + all.take(i + 1));
    }
    assert(all.take(l.len() as int) =~= all);
}

/// Adds the reports of some stalled paths.
fn put_stalled(out: &mut Vec<Action>, folder: FolderId, list: Vec<RelPath>)
    ensures
        final(out).deep_view() == old(out).deep_view() + stalled_actions(folder, list.deep_view()),
{
    let ghost base = out.deep_view();
    let ghost all = stalled_actions(folder, list.deep_view());
    let ghost l = list@;
    assert(base + all.take(0) =~= base);
    for path in it: list
        invariant
            it.seq() == l,
            all.len() == l.len(),
            forall|j: int| 0 <= j < l.len() ==> all[j] == status_action(
                folder,
                StatusView::Stalled { path: (#[trigger] l[j])@ },
            ),
            out.deep_view() == base + all.take(it.index() as int),
    {
        put_status(out, folder, FolderStatus::Stalled { path });
        let ghost i = it.index() as int;
        assert(all.take(i + 1) =~= all.take(i).push(all[i]));
        assert(out.deep_view() =~= base + all.take(i + 1));
    }
    assert(all.take(l.len() as int) =~= all);
}

/// Adds the reports of some changed wants.
fn put_wants(out: &mut Vec<Action>, folder: FolderId, list: Vec<(RelPath, Option<Want>)>)
    ensures
        final(out).deep_view() == old(out).deep_view() + want_actions(folder, list.deep_view()),
{
    let ghost base = out.deep_view();
    let ghost all = want_actions(folder, list.deep_view());
    let ghost l = list@;
    assert(base + all.take(0) =~= base);
    for entry in it: list
        invariant
            it.seq() == l,
            all.len() == l.len(),
            forall|j: int| 0 <= j < l.len() ==> all[j] == (ActionView::WantChanged {
                folder,
                path: (#[trigger] l[j]).0@,
                want: l[j].1.deep_view(),
            }),
            out.deep_view() == base + all.take(it.index() as int),
    {
        let (path, found) = entry;
        let want: Option<Box<Want>> = match found {
            Some(w) => Some(Box::new(w)),
            None => None,
        };
        put(out, Action::WantChanged { folder, path, want });
        let ghost i = it.index() as int;
        assert(all.take(i + 1) =~= all.take(i).push(all[i]));
        assert(out.deep_view() =~= base + all.take(i + 1));
    }
    assert(all.take(l.len() as int) =~= all);
}

/// Adds what the host is asked to do for some steps.
fn put_steps(out: &mut Vec<Action>, folder: FolderId, f: &FolderState, list: Vec<HostStep>)
    ensures
        final(out).deep_view() == old(out).deep_view() + step_actions(
            folder,
            f@,
            list.deep_view(),
        ),
{
    let ghost base = out.deep_view();
    let ghost all = step_actions(folder, f@, list.deep_view());
    let ghost l = list@;
    assert(base + all.take(0) =~= base);
    for step in it: list
        invariant
            it.seq() == l,
            all.len() == l.len(),
            forall|j: int|
                0 <= j < l.len() ==> all[j] == step_action(folder, f@, (#[trigger] l[j])@),
            out.deep_view() == base + all.take(it.index() as int),
    {
        put(out, action_for(folder, f, step));
        let ghost i = it.index() as int;
        assert(all.take(i + 1) =~= all.take(i).push(all[i]));
        assert(out.deep_view() =~= base + all.take(i + 1));
    }
    assert(all.take(l.len() as int) =~= all);
}

/// What the index believes is at a path.
fn belief(f: &FolderState, path: &RelPath) -> (r: Option<Observed>)
    ensures
        r == believed(f@, path@),
{
    match f.index().live(path) {
        Some(r) => Some(r.entry.observed()),
        None => None,
    }
}

/// What the host is asked to do for one step.
fn action_for(folder: FolderId, f: &FolderState, step: HostStep) -> (r: Action)
    ensures
        r@ == step_action(folder, f@, step@),
{
    match step {
        HostStep::Fetch { path, version, hash, size, from } => Action::Fetch {
            folder,
            path,
            version,
            hash,
            size,
            from,
        },
        HostStep::Write { path, entry, expected: _, displace } => {
            let expected = belief(f, &path);
            Action::Write { folder, path, entry, expected, displace }
        },
        HostStep::Remove { path, expected: _, displace } => {
            let expected = belief(f, &path);
            Action::Remove { folder, path, expected, displace }
        },
        HostStep::SetMeta { path, mtime_ns, executable } => {
            let expected = belief(f, &path);
            Action::SetMeta { folder, path, expected, mtime_ns, executable }
        },
    }
}

/// Adds the sending of one batch to some peers.
fn put_sends(out: &mut Vec<Action>, batch: &Batch, to: &Vec<NodeId>)
    ensures
        final(out).deep_view() == old(out).deep_view() + send_actions(batch@, to@),
{
    let ghost base = out.deep_view();
    let ghost all = send_actions(batch@, to@);
    assert(base + all.take(0) =~= base);
    let mut i: usize = 0;
    while i < to.len()
        invariant
            i <= to.len(),
            all == send_actions(batch@, to@),
            out.deep_view() == base + all.take(i as int),
        decreases to.len() - i,
    {
        put(out, Action::Send { to: to[i], payload: Outbound::Batch(batch.dup()) });
        assert(all.take(i + 1) =~= all.take(i as int).push(all[i as int]));
        assert(out.deep_view() =~= base + all.take(i + 1));
        i = i + 1;
    }
    assert(all.take(i as int) =~= all);
}

/// Adds the sending of some batches to some peers, each recorded.
fn put_sent(out: &mut Vec<Action>, list: Vec<Batch>, to: &Vec<NodeId>)
    ensures
        final(out).deep_view() == old(out).deep_view() + sent_actions(list.deep_view(), to@),
{
    let ghost base = out.deep_view();
    let ghost l = list.deep_view();
    let ghost raw = list@;
    assert(l.take(0) =~= Seq::empty());
    assert(base + sent_actions(l.take(0), to@) =~= base);
    for batch in it: list
        invariant
            it.seq() == raw,
            l.len() == raw.len(),
            forall|j: int| 0 <= j < raw.len() ==> l[j] == (#[trigger] raw[j])@,
            out.deep_view() == base + sent_actions(l.take(it.index() as int), to@),
    {
        let ghost i = it.index() as int;
        let ghost before = out.deep_view();
        let ghost bv = batch@;
        put_sends(out, &batch, to);
        put(out, Action::RecordBatch { batch, role: BatchRole::Sent, decision: None });
        proof {
            assert(l.take(i + 1).drop_last() =~= l.take(i));
            assert(l.take(i + 1).last() == bv);
            assert(out.deep_view() =~= base + sent_actions(l.take(i + 1), to@));
        }
    }
    assert(l.take(l.len() as int) =~= l);
}

/// Adds the sending of catch-up batches, each recorded.
fn put_catchup(out: &mut Vec<Action>, list: Vec<(NodeId, Vec<Batch>)>)
    ensures
        final(out).deep_view() == old(out).deep_view() + catchup_actions(list.deep_view()),
{
    let ghost base = out.deep_view();
    let ghost l = list.deep_view();
    let ghost raw = list@;
    assert(l.take(0) =~= Seq::empty());
    assert(base + catchup_actions(l.take(0)) =~= base);
    for entry in it: list
        invariant
            it.seq() == raw,
            l.len() == raw.len(),
            forall|j: int| 0 <= j < raw.len() ==> l[j] == (#[trigger] raw[j]).deep_view(),
            out.deep_view() == base + catchup_actions(l.take(it.index() as int)),
    {
        let ghost i = it.index() as int;
        let ghost ev = entry.deep_view();
        let (peer, batches) = entry;
        let mut to: Vec<NodeId> = Vec::new();
        to.push(peer);
        assert(to@ =~= seq![peer]);
        put_sent(out, batches, &to);
        proof {
            assert(l.take(i + 1).drop_last() =~= l.take(i));
            assert(l.take(i + 1).last() == ev);
            assert(out.deep_view() =~= base + catchup_actions(l.take(i + 1)));
        }
    }
    assert(l.take(l.len() as int) =~= l);
}

/// Adds the entries of paused batches in history.
fn put_paused(out: &mut Vec<Action>, list: Vec<Batch>)
    ensures
        final(out).deep_view() == old(out).deep_view() + paused_actions(list.deep_view()),
{
    let ghost base = out.deep_view();
    let ghost all = paused_actions(list.deep_view());
    let ghost l = list@;
    assert(base + all.take(0) =~= base);
    for batch in it: list
        invariant
            it.seq() == l,
            all.len() == l.len(),
            forall|j: int| 0 <= j < l.len() ==> all[j] == history((#[trigger] l[j])@, BatchRole::Paused),
            out.deep_view() == base + all.take(it.index() as int),
    {
        put(out, Action::RecordBatch { batch, role: BatchRole::Paused, decision: None });
        let ghost i = it.index() as int;
        assert(all.take(i + 1) =~= all.take(i).push(all[i]));
        assert(out.deep_view() =~= base + all.take(i + 1));
    }
    assert(all.take(l.len() as int) =~= all);
}

/// The members that batches of a folder go to.
fn recipients_of(f: &FolderState, own: NodeId, peers: &OrdMap<NodeId, Tier>) -> (r: Vec<NodeId>)
    ensures
        r@ == recipients(f@, own, peers@),
{
    let members = f.members();
    let ghost ms = in_order(f@.members);
    let mut out: Vec<NodeId> = Vec::new();
    let mut i: usize = 0;
    assert(ms.take(0) =~= Seq::empty());
    assert(out@ =~= connected_among(ms.take(0), own, peers@));
    while i < members.len()
        invariant
            i <= members.len(),
            members@ == ms,
            out@ == connected_among(ms.take(i as int), own, peers@),
        decreases members.len() - i,
    {
        assert(ms.take(i + 1).drop_last() =~= ms.take(i as int));
        let m: NodeId = members[i];
        if m != own && peers.contains_key(&m) {
            out.push(m);
        }
        i = i + 1;
    }
    assert(ms.take(i as int) =~= ms);
    out
}

// ---- events about one folder ------------------------------------------------

/// A batch arrived: what it would change, quarantine, brake, decision, history.
fn receive(
    f: &mut FolderState,
    now: Timestamp,
    from: NodeId,
    batch: Batch,
    out: &mut Vec<Action>,
)
    ensures
        final(f)@ == old(f)@.received(now, batch@).folder,
        final(out).deep_view() == old(out).deep_view() + receive_actions(
            old(f)@,
            now,
            from,
            batch@,
        ),
{
    let ghost base = out.deep_view();
    let ghost all = receive_actions(f@, now, from, batch@);
    let id = batch.folder;
    let received = f.receive(now, &batch);
    if received.set.fallbacks > 0 {
        put_status(out, id, FolderStatus::WinnerFallback { count: f.winner_fallbacks() });
    }
    if received.set.duplicates > 0 {
        put_status(
            out,
            id,
            FolderStatus::DuplicatePaths { batch: batch.id, count: received.set.duplicates },
        );
    }
    if received.joined > 0 {
        put_status(
            out,
            id,
            FolderStatus::JoinedHeld { batch: batch.id, count: received.joined },
        );
    }
    if let Some(reason) = received.held {
        put_status(
            out,
            id,
            FolderStatus::Held {
                batch: batch.id,
                source: batch.source,
                reason,
                summary: received.summary,
                paths: received.set.items.len(),
            },
        );
    }
    let decision = received.decision;
    put(
        out,
        Action::Send {
            to: from,
            payload: Outbound::Decision(
                BatchDecision {
                    batch: batch.id,
                    folder: id,
                    decision: decision.dup(),
                    seq_high: f.index().peer_seq(from),
                },
            ),
        },
    );
    put(
        out,
        Action::RecordBatch { batch, role: BatchRole::Received, decision: Some(decision) },
    );
    assert(out.deep_view() =~= base + all);
}

/// A scan report.
fn scan_report(
    f: &mut FolderState,
    id: FolderId,
    now: Timestamp,
    path: RelPath,
    state: ScanState,
    out: &mut Vec<Action>,
)
    ensures
        final(f)@ == old(f)@.scanned(now, path@, state),
        final(out).deep_view() == old(out).deep_view() + scanned_actions(
            old(f)@,
            id,
            now,
            path@,
            state,
        ),
{
    let ghost base = out.deep_view();
    let ghost all = scanned_actions(f@, id, now, path@, state);
    let before: u64 = f.winner_fallbacks();
    let scanned = f.scanned(now, path, state);
    if let Some(change) = scanned.change {
        put(out, Action::IndexChanged { folder: id, record: change.record });
    }
    if let Some(status) = scanned.status {
        put_status(out, id, status);
    }
    if f.winner_fallbacks() > before {
        put_status(out, id, FolderStatus::WinnerFallback { count: f.winner_fallbacks() });
    }
    assert(out.deep_view() =~= base + all);
}

/// A fetch report.
fn fetch_report(
    f: &mut FolderState,
    id: FolderId,
    now: Timestamp,
    path: RelPath,
    version: Version,
    outcome: FetchReport,
    out: &mut Vec<Action>,
)
    ensures
        final(f)@ == old(f)@.fetched(now, path@, version@, outcome),
        final(out).deep_view() == old(out).deep_view() + fetched_actions(
            old(f)@,
            id,
            now,
            path@,
            version@,
            outcome,
        ),
{
    let ghost base = out.deep_view();
    let ghost all = fetched_actions(f@, id, now, path@, version@, outcome);
    let fetched = f.fetched(now, &path, &version, outcome);
    if let Some(state) = fetched.state {
        if matches!(state, WantState::GaveUp) {
            put_status(out, id, FolderStatus::GaveUp { path: path.dup() });
        }
    }
    if let Some(change) = fetched.unrecoverable {
        put(out, Action::IndexChanged { folder: id, record: change.record });
        put_status(out, id, FolderStatus::Unrecoverable { path });
    }
    assert(out.deep_view() =~= base + all);
}

/// An approval.
fn approval(
    f: &mut FolderState,
    id: FolderId,
    own: NodeId,
    peers: &OrdMap<NodeId, Tier>,
    now: Timestamp,
    batch: BatchId,
    out: &mut Vec<Action>,
)
    ensures
        final(f)@ == old(f)@.approve(now, batch).folder,
        final(out).deep_view() == old(out).deep_view() + approved_actions(
            old(f)@,
            id,
            own,
            peers@,
            now,
            batch,
        ),
{
    let ghost base = out.deep_view();
    let ghost all = approved_actions(f@, id, own, peers@, now, batch);
    match f.approve(now, batch) {
        Approved::Released(set) => {
            let items: usize = match &set {
                Some(s) => s.items.len(),
                None => 0,
            };
            put_status(out, id, FolderStatus::Released { batch, items });
        },
        Approved::Sent(batches) => {
            let to = recipients_of(f, own, peers);
            put_sent(out, batches, &to);
            put_status(out, id, FolderStatus::Unpaused { batch });
        },
        Approved::Unknown => {
            put_status(out, id, FolderStatus::UnknownBatch { batch });
        },
    }
    assert(out.deep_view() =~= base + all);
}

/// A revert.
fn reversal(f: &mut FolderState, id: FolderId, now: Timestamp, out: &mut Vec<Action>)
    ensures
        final(f)@ == old(f)@.reverted(now),
        final(out).deep_view() == old(out).deep_view() + revert_actions(old(f)@, id),
{
    let ghost base = out.deep_view();
    let ghost all = revert_actions(f@, id);
    match f.revert(now) {
        Some(r) => {
            let trashed: usize = r.trash.len();
            let batch = r.batch;
            let refetch: usize = r.refetch;
            put_reverted(out, id, r.reverted);
            put_trash(out, id, r.trash);
            put_status(out, id, FolderStatus::Reverted { batch, trashed, refetch });
        },
        None => {
            put_status(out, id, FolderStatus::NotPaused);
        },
    }
    assert(out.deep_view() =~= base + all);
}

/// An event about one folder.
fn folder_event(
    f: &mut FolderState,
    id: FolderId,
    own: NodeId,
    peers: &OrdMap<NodeId, Tier>,
    now: Timestamp,
    event: Event,
    out: &mut Vec<Action>,
)
    requires
        event@.folder() == Some(id),
    ensures
        final(f)@ == folder_step(old(f)@, id, own, peers@, now, event@).folder,
        final(out).deep_view() == old(out).deep_view() + folder_step(
            old(f)@,
            id,
            own,
            peers@,
            now,
            event@,
        ).actions,
{
    let ghost base = out.deep_view();
    let ghost step = folder_step(f@, id, own, peers@, now, event@);
    match event {
        Event::RulesChanged { folder: _, rules } => {
            let statuses = f.rules_changed(rules);
            put_statuses(out, id, statuses);
        },
        Event::Scanned { folder: _, path, state } => {
            scan_report(f, id, now, path, state, out);
        },
        Event::ScanStarted { folder: _ } => {
            f.scan_started();
        },
        Event::ScanFinished { folder: _ } => match f.scan_finished(now) {
            Ok(changes) => {
                put_changes(out, id, changes);
            },
            Err(status) => {
                put_status(out, id, status);
            },
        },
        Event::ScanAborted { folder: _ } => match f.scan_aborted() {
            Ok(_) => {},
            Err(status) => {
                put_status(out, id, status);
            },
        },
        Event::BatchReceived { from, batch } => {
            receive(f, now, from, batch, out);
        },
        Event::DecisionReceived { from, decision } => {
            f.acknowledged(from, decision.seq_high);
        },
        Event::HaveUpToReceived { from, folder: _, seq } => {
            f.have_up_to(from, seq);
        },
        Event::Fetched { folder: _, path, hash: _, version, outcome } => {
            fetch_report(f, id, now, path, version, outcome, out);
        },
        Event::FetchProgress { folder: _, path, hash: _, version } => {
            f.progress(now, &path, &version);
        },
        Event::WantRestored { folder: _, want } => {
            f.restore_want(*want);
        },
        Event::Applied { folder: _, path, version, outcome } => {
            let records = f.applied(now, &path, &version, outcome);
            put_records(out, id, records);
        },
        Event::Approve { folder: _, batch } => {
            approval(f, id, own, peers, now, batch, out);
        },
        Event::Deny { folder: _, batch } => match f.deny(now, batch) {
            Some(changes) => {
                let paths: usize = changes.len();
                assert(changes.deep_view().len() == paths);
                put_changes(out, id, changes);
                put_status(out, id, FolderStatus::Denied { batch, paths });
            },
            None => {
                put_status(out, id, FolderStatus::UnknownBatch { batch });
            },
        },
        Event::Revert { folder: _ } => {
            reversal(f, id, now, out);
        },
        _ => {},
    }
    assert(out.deep_view() =~= base + step.actions);
}

// ---- the engine -------------------------------------------------------------

/// The sync engine for one node.
#[derive(Clone, Debug, PartialEq, Eq)]
pub struct Engine {
    config: NodeConfig,
    folders: OrdMap<FolderId, FolderState>,
    peers: OrdMap<NodeId, Tier>,
    woke: OrdMap<FolderId, Timestamp>,
    now_hint: Timestamp,
}

impl View for Engine {
    type V = EngineView;

    closed spec fn view(&self) -> EngineView {
        EngineView {
            node_id: self.config.node_id,
            author_host: self.config.author_host@,
            folders: self.folders@,
            peers: self.peers@,
            woke: self.woke@,
            now_hint: self.now_hint,
        }
    }
}

impl Engine {
    /// An engine without folders.
    pub fn new(config: NodeConfig) -> (r: Engine)
        ensures
            r@ == EngineView::initial(config.node_id, config.author_host@),
    {
        Engine {
            config,
            folders: OrdMap::new(),
            peers: OrdMap::new(),
            woke: OrdMap::new(),
            now_hint: Timestamp(0),
        }
    }

    /// Rebuilds an engine from stored folders after a restart. Peers are not restored; wants in
    /// transient states are wanted again.
    pub fn restore(config: NodeConfig, folders: Vec<FolderState>) -> (r: Engine)
        ensures
            r@ == EngineView::initial(config.node_id, config.author_host@).restored(
                folders.deep_view(),
            ),
    {
        let mut engine = Engine::new(config);
        let ghost start = engine@;
        let ghost l = folders.deep_view();
        let ghost raw = folders@;
        assert(l.take(0) =~= Seq::empty());
        for folder in it: folders
            invariant
                it.seq() == raw,
                l.len() == raw.len(),
                forall|j: int| 0 <= j < raw.len() ==> l[j] == (#[trigger] raw[j])@,
                engine@ == start.restored(l.take(it.index() as int)),
        {
            let ghost i = it.index() as int;
            let ghost fv = folder@;
            proof {
                assert(l.take(i + 1).drop_last() =~= l.take(i));
                assert(l.take(i + 1).last() == fv);
            }
            let mut f = folder;
            let id = f.id();
            f.restarted();
            engine.folders.insert(id, f);
        }
        assert(l.take(l.len() as int) =~= l);
        engine
    }

    /// What the host told about this machine.
    pub fn config(&self) -> (r: &NodeConfig)
        ensures
            r.node_id == self@.node_id,
            r.author_host@ == self@.author_host,
    {
        &self.config
    }

    /// One folder.
    pub fn folder(&self, id: FolderId) -> (r: Option<&FolderState>)
        ensures
            r.deep_view() == if self@.folders.contains_key(id) {
                Some(self@.folders[id])
            } else {
                None
            },
    {
        self.folders.get(&id)
    }

    /// Every folder in the order of identifiers.
    pub fn folders(&self) -> (r: Vec<&FolderState>)
        ensures
            r.deep_view() == Seq::new(self@.ids().len(), |i: int| self@.folders[self@.ids()[i]]),
    {
        let mut out: Vec<&FolderState> = Vec::new();
        let n: usize = self.folders.len();
        let mut i: usize = 0;
        while i < n
            invariant
                i <= n,
                n == self.folders@.dom().len(),
                n == self@.ids().len(),
                self@.folders == self.folders@,
                out.len() == i,
                forall|j: int|
                    0 <= j < i ==> (#[trigger] out@[j]).deep_view()
                        == self@.folders[self@.ids()[j]],
            decreases n - i,
        {
            out.push(self.folders.value_at(i));
            i = i + 1;
        }
        assert(out.deep_view() =~= Seq::new(
            self@.ids().len(),
            |i: int| self@.folders[self@.ids()[i]],
        ));
        out
    }

    /// Connected peers in the order of identifiers, with their tiers.
    pub fn peers(&self) -> (r: Vec<(NodeId, Tier)>)
        ensures
            r.len() == in_order(self@.peers.dom()).len(),
            forall|i: int|
                0 <= i < r.len() ==> (#[trigger] r@[i]).0 == in_order(self@.peers.dom())[i]
                    && r@[i].1 == self@.peers[r@[i].0],
    {
        let mut out: Vec<(NodeId, Tier)> = Vec::new();
        let n: usize = self.peers.len();
        let mut i: usize = 0;
        while i < n
            invariant
                i <= n,
                n == self.peers@.dom().len(),
                n == in_order(self.peers@.dom()).len(),
                out.len() == i,
                forall|j: int|
                    0 <= j < i ==> (#[trigger] out@[j]).0 == in_order(self.peers@.dom())[j]
                        && out@[j].1 == self.peers@[out@[j].0],
            decreases n - i,
        {
            out.push((*self.peers.key_at(i), *self.peers.value_at(i)));
            i = i + 1;
        }
        out
    }

    /// The folders' identifiers, in order.
    fn ids(&self) -> (r: Vec<FolderId>)
        ensures
            r@ == self@.ids(),
            self@.folders.dom().finite(),
    {
        let mut out: Vec<FolderId> = Vec::new();
        let n: usize = self.folders.len();
        let mut i: usize = 0;
        while i < n
            invariant
                i <= n,
                n == self.folders@.dom().len(),
                n == self@.ids().len(),
                self@.folders == self.folders@,
                out.len() == i,
                forall|j: int| 0 <= j < i ==> out@[j] == self@.ids()[j],
            decreases n - i,
        {
            out.push(*self.folders.key_at(i));
            i = i + 1;
        }
        assert(out@ =~= self@.ids());
        out
    }

    /// Handles one event at time `now` and returns what the host should do.
    pub fn handle(&mut self, now: Timestamp, event: Event) -> (r: Vec<Action>)
        ensures
            (EngineStep { engine: final(self)@, actions: r.deep_view() }) == old(self)@.handled(
                now,
                event@,
            ),
    {
        let mut out: Vec<Action> = Vec::new();
        let ghost t = self@.taken_in(now, event@);
        self.take_in(now, event, &mut out);
        assert(out.deep_view() =~= t.actions);
        self.pump(now, &mut out);
        self.schedule(&mut out);
        out
    }

    /// Takes an event in.
    fn take_in(&mut self, now: Timestamp, event: Event, out: &mut Vec<Action>)
        ensures
            final(self)@ == old(self)@.taken_in(now, event@).engine,
            final(out).deep_view() == old(out).deep_view() + old(self)@.taken_in(
                now,
                event@,
            ).actions,
    {
        self.now_hint = now;
        let ghost start = self@;
        let ghost base = out.deep_view();
        assert(base + Seq::<ActionView>::empty() =~= base);
        match event.folder() {
            Some(id) => match self.folders.remove(&id) {
                Some(f) => {
                    let mut f = f;
                    let ghost before = f@;
                    folder_event(
                        &mut f,
                        id,
                        self.config.node_id,
                        &self.peers,
                        now,
                        event,
                        out,
                    );
                    let ghost t = folder_step(
                        before,
                        id,
                        start.node_id,
                        start.peers,
                        now,
                        event@,
                    );
                    self.folders.insert(id, f);
                    proof {
                        assert(self@.folders =~= start.folders.insert(id, t.folder));
                    }
                },
                None => {
                    put_status(out, id, FolderStatus::UnknownFolder);
                    proof {
                        assert(self@.folders =~= start.folders);
                        assert(out.deep_view() =~= base + seq![
                            status_action(id, StatusView::UnknownFolder),
                        ]);
                    }
                },
            },
            None => match event {
                Event::Tick { fresh_batch_id } => {
                    self.tick(now, fresh_batch_id, out);
                },
                Event::FolderJoined { folder, rules, members } => {
                    if self.folders.contains_key(&folder) {
                        put_status(out, folder, FolderStatus::AlreadyJoined);
                        assert(out.deep_view() =~= base + seq![
                            status_action(folder, StatusView::AlreadyJoined),
                        ]);
                    } else {
                        let state = FolderState::new(
                            folder,
                            rules,
                            &members,
                            self.config.node_id,
                            self.config.author_host.dup(),
                        );
                        self.folders.insert(folder, state);
                    }
                },
                Event::PeerConnected { peer, tier } => {
                    self.peers.insert(peer, tier);
                    self.greet(peer, out);
                },
                Event::PeerTierChanged { peer, tier } => {
                    self.peers.insert(peer, tier);
                },
                Event::PeerDisconnected { peer } => {
                    self.peers.remove(&peer);
                    self.drop_peer(peer);
                },
                _ => {},
            },
        }
    }

    /// Tells a peer how far its records reach here.
    fn greet(&self, peer: NodeId, out: &mut Vec<Action>)
        ensures
            final(out).deep_view() == old(out).deep_view() + greetings(
                self@.folders,
                self@.ids(),
                peer,
            ),
    {
        let ghost base = out.deep_view();
        let n: usize = self.folders.len();
        let ghost ks = self@.ids();
        let mut i: usize = 0;
        assert(ks.take(0) =~= Seq::empty());
        assert(base + Seq::<ActionView>::empty() =~= base);
        while i < n
            invariant
                i <= n,
                n == self.folders@.dom().len(),
                n == ks.len(),
                self@.folders == self.folders@,
                ks == self@.ids(),
                out.deep_view() == base + greetings(self@.folders, ks.take(i as int), peer),
            decreases n - i,
        {
            let id: FolderId = *self.folders.key_at(i);
            let f = self.folders.value_at(i);
            assert(ks.take(i + 1).drop_last() =~= ks.take(i as int));
            assert(ks.take(i + 1).last() == id);
            if f.is_member(peer) {
                put(
                    out,
                    Action::Send {
                        to: peer,
                        payload: Outbound::HaveUpTo { folder: id, seq: f.index().peer_seq(peer) },
                    },
                );
            }
            i = i + 1;
            assert(out.deep_view() =~= base + greetings(self@.folders, ks.take(i as int), peer));
        }
        assert(ks.take(i as int) =~= ks);
    }

    /// A peer went away: fetches from it are over in every folder.
    fn drop_peer(&mut self, peer: NodeId)
        ensures
            final(self)@ == (EngineView {
                folders: Map::new(
                    |id: FolderId| old(self)@.folders.contains_key(id),
                    |id: FolderId| without_peer(old(self)@.folders[id], peer),
                ),
                ..old(self)@
            }),
    {
        let ids = self.ids();
        let ghost start = self@;
        let ghost ks = start.ids();
        let mut i: usize = 0;
        proof {
            lemma_order_facts(start.folders.dom());
        }
        while i < ids.len()
            invariant
                i <= ids.len(),
                ids@ == ks,
                ks.no_duplicates(),
                self@ == (EngineView { folders: self@.folders, ..start }),
                forall|id: FolderId| #[trigger]
                    self@.folders.contains_key(id) <==> start.folders.contains_key(id),
                forall|j: int|
                    0 <= j < i ==> self@.folders[#[trigger] ks[j]] == without_peer(
                        start.folders[ks[j]],
                        peer,
                    ),
                forall|j: int|
                    i <= j < ks.len() ==> start.folders.contains_key(#[trigger] ks[j])
                        && self@.folders[ks[j]] == start.folders[ks[j]],
            decreases ids.len() - i,
        {
            let id: FolderId = ids[i];
            let ghost before = self@.folders;
            assert(id == ks[i as int]);
            assert(before.contains_key(id));
            if let Some(f) = self.folders.remove(&id) {
                let mut f = f;
                f.peer_gone(peer);
                self.folders.insert(id, f);
            }
            proof {
                assert(self@.folders =~= before.insert(id, without_peer(before[id], peer)));
                assert forall|j: int| 0 <= j < i + 1 implies self@.folders[#[trigger] ks[j]]
                    == without_peer(start.folders[ks[j]], peer) by {
                    if j < i {
                        assert(ks[j] != ks[i as int]);
                    }
                }
                assert forall|j: int| i + 1 <= j < ks.len() implies start.folders.contains_key(
                    #[trigger] ks[j],
                ) && self@.folders[ks[j]] == start.folders[ks[j]] by {
                    assert(ks[j] != ks[i as int]);
                }
            }
            i = i + 1;
        }
        proof {
            let target = Map::new(
                |id: FolderId| start.folders.contains_key(id),
                |id: FolderId| without_peer(start.folders[id], peer),
            );
            assert forall|id: FolderId| #[trigger] target.contains_key(id) implies target[id]
                == self@.folders[id] by {
                assert(start.folders.dom().contains(id));
                assert(ks.contains(id));
                let j = choose|j: int| 0 <= j < ks.len() && ks[j] == id;
                assert(self@.folders[ks[j]] == without_peer(start.folders[ks[j]], peer));
            }
            assert(self@.folders =~= target);
        }
    }

    /// Drives every folder's want-list: fetches and commits, adoptions, changed wants.
    fn pump(&mut self, now: Timestamp, out: &mut Vec<Action>)
        ensures
            (EngineStep { engine: final(self)@, actions: final(out).deep_view() }) == (
            EngineStep { engine: old(self)@, actions: old(out).deep_view() }).pumped(now),
    {
        let ids = self.ids();
        let ghost start = self@;
        let ghost ks = start.ids();
        let ghost p0 = FoldersStep { folders: start.folders, actions: out.deep_view() };
        let mut i: usize = 0;
        proof {
            lemma_order_facts(start.folders.dom());
            assert(ks.take(0) =~= Seq::empty());
        }
        while i < ids.len()
            invariant
                i <= ids.len(),
                ids@ == ks,
                self@ == (EngineView { folders: self@.folders, ..start }),
                forall|j: int| 0 <= j < ks.len() ==> start.folders.contains_key(#[trigger] ks[j]),
                forall|id: FolderId| #[trigger]
                    self@.folders.contains_key(id) <==> start.folders.contains_key(id),
                (FoldersStep { folders: self@.folders, actions: out.deep_view() }) == p0.pump_all(
                    ks.take(i as int),
                    start.peers,
                    now,
                ),
            decreases ids.len() - i,
        {
            let id: FolderId = ids[i];
            let ghost before = FoldersStep { folders: self@.folders, actions: out.deep_view() };
            proof {
                reveal(FoldersStep::pump);
                assert(ks.take(i + 1).drop_last() =~= ks.take(i as int));
                assert(ks.take(i + 1).last() == id);
                assert(start.folders.contains_key(ks[i as int]));
            }
            if let Some(f) = self.folders.remove(&id) {
                let mut f = f;
                let (steps, adopted) = f.dispatch(now, &self.peers);
                put_steps(out, id, &f, steps);
                put_records(out, id, adopted);
                let wants = f.want_changes();
                put_wants(out, id, wants);
                let statuses = f.take_statuses();
                put_statuses(out, id, statuses);
                let ghost fv = f@;
                self.folders.insert(id, f);
                proof {
                    let after = before.pump(id, start.peers, now);
                    assert(fv == after.folders[id]);
                    assert(self@.folders =~= after.folders);
                    assert(out.deep_view() =~= after.actions);
                }
            }
            i = i + 1;
        }
        assert(ks.take(i as int) =~= ks);
    }

    /// Forms and sends batches for every folder whose window is due. The host's timer has fired,
    /// so nothing is scheduled any more.
    fn tick(&mut self, now: Timestamp, fresh: BatchId, out: &mut Vec<Action>)
        ensures
            ({
                let s = old(self)@;
                let t = TickStep { folders: s.folders, used: 0, actions: Seq::empty() }.tick_all(
                    s.ids(),
                    s.node_id,
                    s.peers,
                    now,
                    fresh,
                );
                &&& final(self)@ == (EngineView { folders: t.folders, woke: Map::empty(), ..s })
                &&& final(out).deep_view() == old(out).deep_view() + t.actions
            }),
    {
        self.woke = OrdMap::new();
        let ids = self.ids();
        let ghost start = self@;
        let ghost ks = start.ids();
        let ghost base = out.deep_view();
        let ghost t0 = TickStep { folders: start.folders, used: 0, actions: base };
        let mut used: u128 = 0;
        let mut i: usize = 0;
        proof {
            lemma_order_facts(start.folders.dom());
            assert(ks.take(0) =~= Seq::empty());
        }
        while i < ids.len()
            invariant
                i <= ids.len(),
                ids@ == ks,
                self@ == (EngineView { folders: self@.folders, ..start }),
                forall|j: int| 0 <= j < ks.len() ==> start.folders.contains_key(#[trigger] ks[j]),
                forall|id: FolderId| #[trigger]
                    self@.folders.contains_key(id) <==> start.folders.contains_key(id),
                (TickStep { folders: self@.folders, used, actions: out.deep_view() })
                    == t0.tick_all(ks.take(i as int), start.node_id, start.peers, now, fresh),
            decreases ids.len() - i,
        {
            let id: FolderId = ids[i];
            let ghost before = TickStep { folders: self@.folders, used, actions: out.deep_view() };
            proof {
                assert(ks.take(i + 1).drop_last() =~= ks.take(i as int));
                assert(ks.take(i + 1).last() == id);
                assert(start.folders.contains_key(ks[i as int]));
            }
            if let Some(f) = self.folders.remove(&id) {
                let mut f = f;
                used = self.tick_folder(id, &mut f, now, fresh, used, out, Ghost(before));
                let ghost after = before.tick(id, start.node_id, start.peers, now, fresh);
                proof {
                    assert(f@ == after.folders[id]);
                }
                self.folders.insert(id, f);
                proof {
                    lemma_tick_folders(before, id, start.node_id, start.peers, now, fresh);
                    assert(self@.folders =~= after.folders);
                }
            }
            i = i + 1;
        }
        proof {
            assert(ks.take(i as int) =~= ks);
            let t = TickStep { folders: start.folders, used: 0, actions: Seq::empty() };
            assert(base + t.actions =~= base);
            lemma_tick_all_appends(t, base, ks, start.node_id, start.peers, now, fresh);
        }
    }

    /// A tick of one folder. Returns how many batch identifiers have been used.
    fn tick_folder(
        &self,
        id: FolderId,
        f: &mut FolderState,
        now: Timestamp,
        fresh: BatchId,
        used: u128,
        out: &mut Vec<Action>,
        Ghost(before): Ghost<TickStep>,
    ) -> (r: u128)
        requires
            before.folders.contains_key(id),
            before.folders[id] == old(f)@,
            before.used == used,
            before.actions == old(out).deep_view(),
        ensures
            ({
                let after = before.tick(id, self@.node_id, self@.peers, now, fresh);
                &&& final(f)@ == after.folders[id]
                &&& r == after.used
                &&& final(out).deep_view() == after.actions
            }),
    {
        proof {
            reveal(TickStep::tick);
        }
        let overdue = f.expire(now);
        put_stalled(out, id, overdue);
        let (catchup, spent) = f.catchup_batches(now, fresh.successor(used));
        put_catchup(out, catchup);
        let used: u128 = add_used(used, spent);
        match f.tick(now, fresh.successor(used)) {
            Ticked::Nothing => used,
            Ticked::Sent(batches) => {
                let count: u128 = batches.len() as u128;
                assert(batches.deep_view().len() == count);
                let to = recipients_of(f, self.config.node_id, &self.peers);
                put_sent(out, batches, &to);
                add_used(used, count)
            },
            Ticked::Paused { first, snapshot, status } => {
                let ghost base = out.deep_view();
                let ghost snap = snapshot.deep_view();
                let ghost sv = status@;
                if first {
                    put_paused(out, snapshot);
                }
                put_status(out, id, status);
                proof {
                    let extra = if first {
                        paused_actions(snap)
                    } else {
                        Seq::empty()
                    };
                    assert(out.deep_view() =~= base + extra + seq![status_action(id, sv)]);
                }
                if first {
                    add_used(used, 1)
                } else {
                    used
                }
            },
        }
    }

    /// Asks for a tick at each folder's due time, once for each change of it.
    fn schedule(&mut self, out: &mut Vec<Action>)
        ensures
            (EngineStep { engine: final(self)@, actions: final(out).deep_view() }) == (
            EngineStep { engine: old(self)@, actions: old(out).deep_view() }).schedule_all(
                old(self)@.ids(),
            ),
    {
        let n: usize = self.folders.len();
        let ghost start = EngineStep { engine: self@, actions: out.deep_view() };
        let ghost ks = self@.ids();
        let mut i: usize = 0;
        assert(ks.take(0) =~= Seq::empty());
        while i < n
            invariant
                i <= n,
                n == self.folders@.dom().len(),
                n == ks.len(),
                ks == in_order(self.folders@.dom()),
                self@.folders == start.engine.folders,
                (EngineStep { engine: self@, actions: out.deep_view() }) == start.schedule_all(
                    ks.take(i as int),
                ),
            decreases n - i,
        {
            let id: FolderId = *self.folders.key_at(i);
            let f = self.folders.value_at(i);
            let wake = f.wake_now();
            let due: Option<Timestamp> = f.due();
            proof {
                assert(ks.take(i + 1).drop_last() =~= ks.take(i as int));
                assert(ks.take(i + 1).last() == id);
            }
            if wake {
                put(out, Action::WakeAt(self.now_hint));
                self.woke.remove(&id);
            } else {
                match due {
                    Some(t) => {
                        let known = match self.woke.get(&id) {
                            Some(w) => *w == t,
                            None => false,
                        };
                        if !known {
                            self.woke.insert(id, t);
                            put(out, Action::WakeAt(t));
                        }
                    },
                    None => {
                        self.woke.remove(&id);
                    },
                }
            }
            i = i + 1;
        }
        assert(ks.take(i as int) =~= ks);
    }
}

/// Counts batch identifiers.
fn add_used(used: u128, n: u128) -> (r: u128)
    ensures
        r == plus_used(used, n as nat),
{
    used.wrapping_add(n)
}

/// A tick of one folder changes that folder only.
proof fn lemma_tick_folders(
    t: TickStep,
    id: FolderId,
    own: NodeId,
    peers: Map<NodeId, Tier>,
    now: Timestamp,
    fresh: BatchId,
)
    ensures
        ({
            let after = t.tick(id, own, peers, now, fresh);
            after.folders == t.folders.insert(id, after.folders[id])
        }),
{
    reveal(TickStep::tick);
}

/// Ticks add to the actions that are there.
proof fn lemma_tick_all_appends(
    t: TickStep,
    base: Seq<ActionView>,
    ks: Seq<FolderId>,
    own: NodeId,
    peers: Map<NodeId, Tier>,
    now: Timestamp,
    fresh: BatchId,
)
    ensures
        ({
            let after = t.tick_all(ks, own, peers, now, fresh);
            TickStep { actions: base + t.actions, ..t }.tick_all(ks, own, peers, now, fresh)
                == (TickStep { actions: base + after.actions, ..after })
        }),
    decreases ks.len(),
{
    if ks.len() > 0 {
        lemma_tick_all_appends(t, base, ks.drop_last(), own, peers, now, fresh);
        let m = t.tick_all(ks.drop_last(), own, peers, now, fresh);
        let n = TickStep { actions: base + m.actions, ..m };
        reveal(TickStep::tick);
        assert(n.tick(ks.last(), own, peers, now, fresh).actions =~= base + m.tick(
            ks.last(),
            own,
            peers,
            now,
            fresh,
        ).actions);
    }
}

} // verus!
