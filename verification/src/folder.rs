//! Per-folder state: the index, the batch window, an open scan, the want-list, what each peer has
//! acknowledged, the quarantine, and whether the folder is paused.
//!
//! Any index write opens the batch window. When the window is due, the brake looks at the
//! unannounced local changes: either they are announced, or the folder is paused and nothing
//! leaves until it is approved or reverted. A received batch meets the brake too: what it changes
//! is wanted, or held in quarantine. Entries that cannot be wanted yet wait at their paths.

use crate::batch::{
    apply_set, classify, form, ApplyItem, ApplyMode, ApplySet, Batch, Decision, Summary,
};
use crate::brake::{evaluate, items_summary, receiver_summary, HoldReason, Verdict};
use crate::entry::{ContentHash, Entry, Kind, Observed};
use crate::folder_view::{
    as_candidates, by_path, candidates_of, commit_step, fallbacks_of, frozen_among, items_of,
    joined_statuses, kept, paired, path_keys, raws_for, raws_of, released_among, revived_among,
    taken, thawed, trashed_among, ApprovedView, CandidateView, DeferredView, DisplaceView,
    FetchedView, FolderView, HostStepView, ReceivedView, Receiving, RevertView, ScannedView,
    Sorting, StatusView, TickedView, WithApproved, WithChanges, WithReceived, WithRecords,
    WithSteps,
};
use crate::id::{BatchId, FolderId, HostName, NodeId};
use crate::index::{ChangeKind, Index, IndexRecord, LocalChange, RecordView, Reverted};
use crate::order::{in_order, lemma_order_facts, lemma_take_contains};
use crate::ordmap::{Key, OrdMap, OrdSet, Value};
use crate::path::RelPath;
use crate::quarantine::{HeldItem, Quarantine};
use crate::rules::Rules;
use crate::time::{DEBOUNCE_NANOS, Timestamp, WINDOW_NANOS};
use crate::version::Version;
use crate::want::{FetchReport, Tier, Want, WantList, WantListView, WantState, WantStep};
use vstd::prelude::*;

verus! {

/// What the host reports for one path. `Unchanged` means that nothing was hashed because the file
/// looks as it did.
#[derive(Clone, Copy, Debug, PartialEq, Eq, Hash, Structural)]
pub enum ScanState {
    Absent,
    Unchanged,
    Observed(Observed),
}

/// The result of a host's commit attempt.
#[derive(Clone, Copy, Debug, PartialEq, Eq, Hash, Structural)]
pub enum ApplyOutcome {
    /// The content is in place.
    Done,
    /// The local file was not what the index said. Nothing was written.
    ChangedUnderneath,
}

/// Why an incoming entry is waiting.
#[derive(Clone, Copy, Debug, PartialEq, Eq, Hash, Structural)]
pub enum DeferredReason {
    /// Its commit found the file changed underneath, or another version is wanted at its path.
    ChangedUnderneath,
    /// Its path has a pending change in a paused folder.
    Frozen,
}

/// An incoming entry waiting to be classified again.
#[derive(Clone, Debug, PartialEq, Eq)]
pub struct Deferred {
    /// The entry to classify: the incoming entry, or the merged one for a conflict.
    pub entry: Entry,
    /// The batch it arrived in.
    pub batch: BatchId,
    pub source: NodeId,
    pub seq_high: u64,
    pub reason: DeferredReason,
}

impl View for Deferred {
    type V = DeferredView;

    open spec fn view(&self) -> DeferredView {
        DeferredView {
            entry: self.entry@,
            batch: self.batch,
            source: self.source,
            seq_high: self.seq_high,
            reason: self.reason,
        }
    }
}

impl DeepView for Deferred {
    type V = DeferredView;

    open spec fn deep_view(&self) -> DeferredView {
        self.view()
    }
}

impl Value for Deferred {
    fn dup(&self) -> (r: Deferred) {
        Deferred {
            entry: self.entry.dup(),
            batch: self.batch,
            source: self.source,
            seq_high: self.seq_high,
            reason: self.reason,
        }
    }

    fn same(&self, other: &Deferred) -> (r: bool) {
        self.entry.same(&other.entry) && self.batch == other.batch && self.source == other.source
            && self.seq_high == other.seq_high && self.reason == other.reason
    }
}

/// A paused folder.
#[derive(Clone, Copy, Debug, PartialEq, Eq, Structural)]
pub struct Paused {
    /// Reserved when the folder paused; approving it sends with it.
    pub batch: BatchId,
    pub since: Timestamp,
    /// Why it paused, and the counts at the last check.
    pub reason: HoldReason,
    pub summary: Summary,
    /// True if the pending changes would pass now; the folder still waits.
    pub would_pass: bool,
}

/// What the index believes is at a path when a commit is ordered.
#[derive(Clone, Copy, Debug, PartialEq, Eq, Hash, Structural)]
pub struct Expected {
    pub kind: Kind,
    pub size: u64,
    pub mtime_ns: i64,
}

/// Where a commit moves the file it displaces.
#[derive(Clone, Debug, PartialEq, Eq)]
pub enum Displace {
    Trash,
    /// To the conflict copy's path: the displaced file is the losing content.
    ConflictCopy(RelPath),
}

impl View for Displace {
    type V = DisplaceView;

    open spec fn view(&self) -> DisplaceView {
        match self {
            Displace::Trash => DisplaceView::Trash,
            Displace::ConflictCopy(path) => DisplaceView::ConflictCopy(path@),
        }
    }
}

impl DeepView for Displace {
    type V = DisplaceView;

    open spec fn deep_view(&self) -> DisplaceView {
        self.view()
    }
}

/// Something the folder wants its user to know about.
#[derive(Clone, Debug, PartialEq, Eq)]
pub enum FolderStatus {
    /// A batch or command arrived for a folder this machine has not joined.
    UnknownFolder,
    /// The folder was joined already; its state was kept.
    AlreadyJoined,
    /// The host reported a path without a live record as unchanged.
    UnchangedUnknownPath { path: RelPath },
    /// A scan ended that had not started.
    ScanNotOpen,
    /// A received batch repeated a path; the last entry was kept.
    DuplicatePaths { batch: BatchId, count: usize },
    /// The last winner rule decided this many conflicts so far.
    WinnerFallback { count: u64 },
    /// The check before sending tripped; nothing left.
    Paused { batch: BatchId, reason: HoldReason, summary: Summary },
    /// The check ran again on a paused folder.
    PausedRecheck { batch: BatchId, would_pass: bool, summary: Summary },
    /// A received batch was held.
    Held {
        batch: BatchId,
        source: NodeId,
        reason: HoldReason,
        summary: Summary,
        paths: usize,
    },
    /// Incoming versions joined a held item.
    JoinedHeld { batch: BatchId, count: usize },
    /// A held item was released; this many items are being applied.
    Released { batch: BatchId, items: usize },
    /// A paused batch was sent.
    Unpaused { batch: BatchId },
    /// A denial bumped this many paths.
    Denied { batch: BatchId, paths: usize },
    /// The pending changes were undone.
    Reverted { batch: BatchId, trashed: usize, refetch: usize },
    /// A revert of a folder that is not paused.
    NotPaused,
    /// The batch is neither held nor paused.
    UnknownBatch { batch: BatchId },
    /// New rules were held against a held item or the paused batch.
    RulesRecheck { batch: BatchId, would_pass: bool },
    /// A want gave up after two hash mismatches.
    GaveUp { path: RelPath },
    /// A reverted path's content exists on no member; the deletion stands.
    Unrecoverable { path: RelPath },
    /// A fetch or commit deadline passed.
    Stalled { path: RelPath },
}

impl View for FolderStatus {
    type V = StatusView;

    open spec fn view(&self) -> StatusView {
        match self {
            FolderStatus::UnknownFolder => StatusView::UnknownFolder,
            FolderStatus::AlreadyJoined => StatusView::AlreadyJoined,
            FolderStatus::UnchangedUnknownPath { path } => StatusView::UnchangedUnknownPath {
                path: path@,
            },
            FolderStatus::ScanNotOpen => StatusView::ScanNotOpen,
            FolderStatus::DuplicatePaths { batch, count } => StatusView::DuplicatePaths {
                batch: *batch,
                count: *count as nat,
            },
            FolderStatus::WinnerFallback { count } => StatusView::WinnerFallback { count: *count },
            FolderStatus::Paused { batch, reason, summary } => StatusView::Paused {
                batch: *batch,
                reason: *reason,
                summary: *summary,
            },
            FolderStatus::PausedRecheck { batch, would_pass, summary } => StatusView::PausedRecheck {
                batch: *batch,
                would_pass: *would_pass,
                summary: *summary,
            },
            FolderStatus::Held { batch, source, reason, summary, paths } => StatusView::Held {
                batch: *batch,
                source: *source,
                reason: *reason,
                summary: *summary,
                paths: *paths as nat,
            },
            FolderStatus::JoinedHeld { batch, count } => StatusView::JoinedHeld {
                batch: *batch,
                count: *count as nat,
            },
            FolderStatus::Released { batch, items } => StatusView::Released {
                batch: *batch,
                items: *items as nat,
            },
            FolderStatus::Unpaused { batch } => StatusView::Unpaused { batch: *batch },
            FolderStatus::Denied { batch, paths } => StatusView::Denied {
                batch: *batch,
                paths: *paths as nat,
            },
            FolderStatus::Reverted { batch, trashed, refetch } => StatusView::Reverted {
                batch: *batch,
                trashed: *trashed as nat,
                refetch: *refetch as nat,
            },
            FolderStatus::NotPaused => StatusView::NotPaused,
            FolderStatus::UnknownBatch { batch } => StatusView::UnknownBatch { batch: *batch },
            FolderStatus::RulesRecheck { batch, would_pass } => StatusView::RulesRecheck {
                batch: *batch,
                would_pass: *would_pass,
            },
            FolderStatus::GaveUp { path } => StatusView::GaveUp { path: path@ },
            FolderStatus::Unrecoverable { path } => StatusView::Unrecoverable { path: path@ },
            FolderStatus::Stalled { path } => StatusView::Stalled { path: path@ },
        }
    }
}

impl DeepView for FolderStatus {
    type V = StatusView;

    open spec fn deep_view(&self) -> StatusView {
        self.view()
    }
}

/// An open batch window.
#[derive(Clone, Copy, Debug, PartialEq, Eq, Hash, Structural)]
pub struct Window {
    /// Time of the first write since the last batch.
    pub opened: Timestamp,
    /// Time of the most recent write.
    pub last: Timestamp,
}

impl Window {
    /// When a batch should form: some time after the last write, or a longer time after the first,
    /// whichever comes first.
    pub open spec fn end(self) -> Timestamp {
        let a = self.opened.plus(WINDOW_NANOS as int);
        let b = self.last.plus(DEBOUNCE_NANOS as int);
        if a.0 <= b.0 {
            a
        } else {
            b
        }
    }

    /// When a batch should form.
    pub fn due(&self) -> (r: Timestamp)
        ensures
            r == self.end(),
    {
        let a = self.opened.plus_nanos(WINDOW_NANOS);
        let b = self.last.plus_nanos(DEBOUNCE_NANOS);
        if a.0 <= b.0 {
            a
        } else {
            b
        }
    }
}

/// What handling one scan report produced.
#[derive(Clone, Debug, PartialEq, Eq)]
pub struct Scanned {
    pub change: Option<LocalChange>,
    pub status: Option<FolderStatus>,
}

impl View for Scanned {
    type V = ScannedView;

    open spec fn view(&self) -> ScannedView {
        ScannedView { change: self.change.deep_view(), status: self.status.deep_view() }
    }
}

impl Default for Scanned {
    fn default() -> (r: Scanned)
        ensures
            r@ == (ScannedView { change: None, status: None }),
    {
        Scanned { change: None, status: None }
    }
}

/// What a due tick did.
#[derive(Clone, Debug, PartialEq, Eq)]
pub enum Ticked {
    /// The window was not due, or there was nothing to send.
    Nothing,
    /// Batches formed and are to be sent.
    Sent(Vec<Batch>),
    /// The check tripped, or ran again on a folder that is paused already.
    Paused { first: bool, snapshot: Vec<Batch>, status: FolderStatus },
}

impl View for Ticked {
    type V = TickedView;

    open spec fn view(&self) -> TickedView {
        match self {
            Ticked::Nothing => TickedView::Nothing,
            Ticked::Sent(batches) => TickedView::Sent(batches.deep_view()),
            Ticked::Paused { first, snapshot, status } => TickedView::Paused {
                first: *first,
                snapshot: snapshot.deep_view(),
                status: status@,
            },
        }
    }
}

/// What receiving a batch produced.
#[derive(Clone, Debug, PartialEq, Eq)]
pub struct Received {
    /// The items that met the brake.
    pub set: ApplySet,
    pub decision: Decision,
    /// The counts of `set`.
    pub summary: Summary,
    /// Items that joined a held item.
    pub joined: usize,
    /// Items that wait because their path is pending in a paused folder.
    pub frozen: usize,
    /// Items that this machine wants already.
    pub already_wanted: usize,
    /// Why the batch was held, if it was.
    pub held: Option<HoldReason>,
}

impl View for Received {
    type V = ReceivedView;

    open spec fn view(&self) -> ReceivedView {
        ReceivedView {
            set: self.set@,
            decision: self.decision@,
            summary: self.summary,
            joined: self.joined as nat,
            frozen: self.frozen as nat,
            already_wanted: self.already_wanted as nat,
            held: self.held,
        }
    }
}

/// What a fetch report did.
#[derive(Clone, Debug, PartialEq, Eq)]
pub struct Fetched {
    /// The want's state after the report, if one matched and remains.
    pub state: Option<WantState>,
    /// The tombstone written because restored content exists nowhere.
    pub unrecoverable: Option<LocalChange>,
}

impl View for Fetched {
    type V = FetchedView;

    open spec fn view(&self) -> FetchedView {
        FetchedView { state: self.state, unrecoverable: self.unrecoverable.deep_view() }
    }
}

/// What an approval did.
#[derive(Clone, Debug, PartialEq, Eq)]
pub enum Approved {
    /// A held item was released; what it now comes to, if anything.
    Released(Option<ApplySet>),
    /// The paused batch formed and is to be sent.
    Sent(Vec<Batch>),
    /// Neither a held item nor the paused batch.
    Unknown,
}

impl View for Approved {
    type V = ApprovedView;

    open spec fn view(&self) -> ApprovedView {
        match self {
            Approved::Released(set) => ApprovedView::Released(
                match set {
                    Some(s) => Some(s@),
                    None => None,
                },
            ),
            Approved::Sent(batches) => ApprovedView::Sent(batches.deep_view()),
            Approved::Unknown => ApprovedView::Unknown,
        }
    }
}

/// What a revert did.
#[derive(Clone, Debug, PartialEq, Eq)]
pub struct RevertOutcome {
    pub batch: BatchId,
    /// Every index write that the revert made.
    pub reverted: Vec<Reverted>,
    /// Paths whose current file goes to the trash.
    pub trash: Vec<RelPath>,
    /// Restored live entries wanted again.
    pub refetch: usize,
}

impl View for RevertOutcome {
    type V = RevertView;

    open spec fn view(&self) -> RevertView {
        RevertView {
            batch: self.batch,
            reverted: self.reverted.deep_view(),
            trash: self.trash.deep_view(),
            refetch: self.refetch as nat,
        }
    }
}

impl DeepView for RevertOutcome {
    type V = RevertView;

    open spec fn deep_view(&self) -> RevertView {
        self.view()
    }
}

/// One thing the host is asked to do for the want-list.
#[derive(Clone, Debug, PartialEq, Eq)]
pub enum HostStep {
    Fetch { path: RelPath, version: Version, hash: ContentHash, size: u64, from: NodeId },
    Write { path: RelPath, entry: Entry, expected: Option<Expected>, displace: Displace },
    /// Delete as one operation: check `expected`, move the file aside.
    Remove { path: RelPath, expected: Option<Expected>, displace: Displace },
    SetMeta { path: RelPath, mtime_ns: i64, executable: bool },
}

impl View for HostStep {
    type V = HostStepView;

    open spec fn view(&self) -> HostStepView {
        match self {
            HostStep::Fetch { path, version, hash, size, from } => HostStepView::Fetch {
                path: path@,
                version: version@,
                hash: *hash,
                size: *size,
                from: *from,
            },
            HostStep::Write { path, entry, expected, displace } => HostStepView::Write {
                path: path@,
                entry: entry@,
                expected: *expected,
                displace: displace@,
            },
            HostStep::Remove { path, expected, displace } => HostStepView::Remove {
                path: path@,
                expected: *expected,
                displace: displace@,
            },
            HostStep::SetMeta { path, mtime_ns, executable } => HostStepView::SetMeta {
                path: path@,
                mtime_ns: *mtime_ns,
                executable: *executable,
            },
        }
    }
}

impl DeepView for HostStep {
    type V = HostStepView;

    open spec fn deep_view(&self) -> HostStepView {
        self.view()
    }
}

/// An item on its way into the want-list, with the batch it came in.
struct Candidate {
    item: ApplyItem,
    /// The entry as it was received.
    raw: Entry,
    batch: BatchId,
    source: NodeId,
    seq_high: u64,
}

impl View for Candidate {
    type V = CandidateView;

    closed spec fn view(&self) -> CandidateView {
        CandidateView {
            item: self.item@,
            raw: self.raw@,
            batch: self.batch,
            source: self.source,
            seq_high: self.seq_high,
        }
    }
}

impl DeepView for Candidate {
    type V = CandidateView;

    closed spec fn deep_view(&self) -> CandidateView {
        self.view()
    }
}

/// State of one folder on this machine.
#[derive(Clone, Debug, PartialEq, Eq)]
pub struct FolderState {
    id: FolderId,
    rules: Rules,
    members: OrdSet<NodeId>,
    index: Index,
    window: Option<Window>,
    scan: Option<OrdSet<RelPath>>,
    wants: WantList,
    acked: OrdMap<NodeId, u64>,
    catchup: OrdSet<NodeId>,
    deferred: OrdMap<RelPath, Vec<Deferred>>,
    winner_fallbacks: u64,
    quarantine: Quarantine,
    paused: Option<Paused>,
    statuses: Vec<FolderStatus>,
}

impl View for FolderState {
    type V = FolderView;

    closed spec fn view(&self) -> FolderView {
        FolderView {
            id: self.id,
            rules: self.rules,
            members: self.members@,
            index: self.index@,
            window: self.window,
            scan: self.scan.deep_view(),
            wants: self.wants@,
            acked: self.acked@,
            catchup: self.catchup@,
            deferred: self.deferred@,
            winner_fallbacks: self.winner_fallbacks,
            quarantine: self.quarantine@,
            paused: self.paused,
            statuses: self.statuses.deep_view(),
        }
    }
}

impl DeepView for FolderState {
    type V = FolderView;

    open spec fn deep_view(&self) -> FolderView {
        self.view()
    }
}

/// What a folder's state is made of, to store it and to build it again. Statuses that were raised
/// and not yet taken are not stored.
#[derive(Clone, Debug, PartialEq, Eq)]
pub struct FolderParts {
    pub id: FolderId,
    pub rules: Rules,
    pub members: OrdSet<NodeId>,
    pub index: Index,
    pub window: Option<Window>,
    /// Paths reported since the scan started, while one is open.
    pub scan: Option<OrdSet<RelPath>>,
    pub wants: WantList,
    /// What each peer has acknowledged.
    pub acked: OrdMap<NodeId, u64>,
    /// Peers that await catch-up.
    pub catchup: OrdSet<NodeId>,
    /// Entries waiting to be classified again, in the order of arrival at each path.
    pub deferred: OrdMap<RelPath, Vec<Deferred>>,
    pub winner_fallbacks: u64,
    pub quarantine: Quarantine,
    pub paused: Option<Paused>,
}

impl View for FolderParts {
    type V = FolderView;

    open spec fn view(&self) -> FolderView {
        FolderView {
            id: self.id,
            rules: self.rules,
            members: self.members@,
            index: self.index@,
            window: self.window,
            scan: self.scan.deep_view(),
            wants: self.wants@,
            acked: self.acked@,
            catchup: self.catchup@,
            deferred: self.deferred@,
            winner_fallbacks: self.winner_fallbacks,
            quarantine: self.quarantine@,
            paused: self.paused,
            statuses: Seq::empty(),
        }
    }
}

impl FolderState {
    /// A folder's state from what it is made of, as it was stored.
    pub fn from_parts(parts: FolderParts) -> (r: FolderState)
        ensures
            r@ == parts@,
    {
        let statuses: Vec<FolderStatus> = Vec::new();
        assert(statuses.deep_view() =~= Seq::empty());
        FolderState {
            id: parts.id,
            rules: parts.rules,
            members: parts.members,
            index: parts.index,
            window: parts.window,
            scan: parts.scan,
            wants: parts.wants,
            acked: parts.acked,
            catchup: parts.catchup,
            deferred: parts.deferred,
            winner_fallbacks: parts.winner_fallbacks,
            quarantine: parts.quarantine,
            paused: parts.paused,
            statuses,
        }
    }

    /// What the state is made of, but for statuses that were not taken.
    pub fn into_parts(self) -> (r: FolderParts)
        ensures
            r@ == (FolderView { statuses: Seq::empty(), ..self@ }),
    {
        FolderParts {
            id: self.id,
            rules: self.rules,
            members: self.members,
            index: self.index,
            window: self.window,
            scan: self.scan,
            wants: self.wants,
            acked: self.acked,
            catchup: self.catchup,
            deferred: self.deferred,
            winner_fallbacks: self.winner_fallbacks,
            quarantine: self.quarantine,
            paused: self.paused,
        }
    }

    /// Joins a folder with an empty index.
    pub fn new(
        id: FolderId,
        rules: Rules,
        members: &Vec<NodeId>,
        own: NodeId,
        host: HostName,
    ) -> (r: FolderState)
        ensures
            r@ == FolderView::initial(id, rules, members@.to_set(), own, host@),
    {
        let mut set: OrdSet<NodeId> = OrdSet::new();
        let mut i: usize = 0;
        assert(set@ =~= members@.take(0).to_set());
        while i < members.len()
            invariant
                i <= members.len(),
                set@ == members@.take(i as int).to_set(),
            decreases members.len() - i,
        {
            set.insert(members[i]);
            proof {
                assert forall|n: NodeId|
                    members@.take(i + 1).to_set().contains(n) <==> set@.contains(n) by {
                    lemma_take_contains(members@, i as int, n);
                }
                assert(set@ =~= members@.take(i + 1).to_set());
            }
            i = i + 1;
        }
        assert(members@.take(i as int) =~= members@);
        let r = FolderState {
            id,
            rules,
            members: set,
            index: Index::new(own, host),
            window: None,
            scan: None,
            wants: WantList::default(),
            acked: OrdMap::new(),
            catchup: OrdSet::new(),
            deferred: OrdMap::new(),
            winner_fallbacks: 0,
            quarantine: Quarantine::default(),
            paused: None,
            statuses: Vec::new(),
        };
        assert(r@.statuses =~= Seq::empty());
        r
    }

    /// Statuses raised since the last call.
    pub fn take_statuses(&mut self) -> (r: Vec<FolderStatus>)
        ensures
            final(self)@ == (FolderView { statuses: Seq::empty(), ..old(self)@ }),
            r.deep_view() == old(self)@.statuses,
    {
        let mut out: Vec<FolderStatus> = Vec::new();
        std::mem::swap(&mut out, &mut self.statuses);
        assert(self@.statuses =~= Seq::empty());
        out
    }

    /// The folder's identifier.
    pub fn id(&self) -> (r: FolderId)
        ensures
            r == self@.id,
    {
        self.id
    }

    /// The folder's rules.
    pub fn rules(&self) -> (r: &Rules)
        ensures
            *r == self@.rules,
    {
        &self.rules
    }

    /// Members in order, this machine among them if it was listed.
    pub fn members(&self) -> (r: Vec<NodeId>)
        ensures
            r@ == in_order(self@.members),
            self@.members.finite(),
    {
        let out = self.members.to_vec();
        proof {
            assert forall|i: int| 0 <= i < out.len() implies out@[i] == in_order(
                self@.members,
            )[i] by {
                assert(out@[i].key() == in_order(self@.members)[i]);
            }
            assert(out@ =~= in_order(self@.members));
        }
        out
    }

    /// True if `node` is a member of this folder.
    pub fn is_member(&self, node: NodeId) -> (r: bool)
        ensures
            r == self@.members.contains(node),
    {
        self.members.contains(&node)
    }

    /// The index.
    pub fn index(&self) -> (r: &Index)
        ensures
            r@ == self@.index,
    {
        &self.index
    }

    /// The open batch window, if any.
    pub fn window(&self) -> (r: Option<Window>)
        ensures
            r == self@.window,
    {
        self.window
    }

    /// When a tick is next needed: for the window, or for the earliest want deadline.
    pub fn due(&self) -> (r: Option<Timestamp>)
        ensures
            r == self@.due(),
    {
        let d = self.wants.next_deadline();
        match self.window {
            Some(w) => {
                let end = w.due();
                match d {
                    Some(t) => if end.0 <= t.0 {
                        Some(end)
                    } else {
                        Some(t)
                    },
                    None => Some(end),
                }
            },
            None => d,
        }
    }

    /// True if the window is open and due at or before `now`.
    pub fn is_due(&self, now: Timestamp) -> (r: bool)
        ensures
            r == self@.is_due(now),
    {
        match self.window {
            Some(w) => w.due().0 <= now.0,
            None => false,
        }
    }

    /// True if a peer awaits catch-up.
    pub fn wake_now(&self) -> (r: bool)
        ensures
            r == (self@.catchup != Set::<NodeId>::empty()),
    {
        !self.catchup.is_empty()
    }

    /// True while a scan is open.
    pub fn scan_open(&self) -> (r: bool)
        ensures
            r == self@.scan is Some,
    {
        self.scan.is_some()
    }

    /// The want-list.
    pub fn wants(&self) -> (r: &WantList)
        ensures
            r@ == self@.wants,
    {
        &self.wants
    }

    /// The highest sequence number of ours that `peer` has acknowledged, 0 if none.
    pub fn acked_by(&self, peer: NodeId) -> (r: u64)
        ensures
            r == self@.acked_by(peer),
    {
        match self.acked.get(&peer) {
            Some(s) => *s,
            None => 0,
        }
    }

    /// Entries waiting to be classified again, in the order of paths and of arrival.
    pub fn deferred(&self) -> (r: Vec<&Deferred>)
        ensures
            r.deep_view() == waiting_among(self@.deferred, in_order(self@.deferred.dom())),
    {
        let mut out: Vec<&Deferred> = Vec::new();
        let n: usize = self.deferred.len();
        let ghost ks = in_order(self@.deferred.dom());
        let mut i: usize = 0;
        assert(ks.take(0) =~= Seq::empty());
        assert(out.deep_view() =~= waiting_among(self@.deferred, ks.take(0)));
        while i < n
            invariant
                i <= n,
                n == self.deferred@.dom().len(),
                n == ks.len(),
                self@.deferred == self.deferred@,
                ks == in_order(self@.deferred.dom()),
                out.deep_view() == waiting_among(self@.deferred, ks.take(i as int)),
            decreases n - i,
        {
            let list = self.deferred.value_at(i);
            let ghost l = list.deep_view();
            let ghost base = out.deep_view();
            assert(ks.take(i + 1).drop_last() =~= ks.take(i as int));
            let mut j: usize = 0;
            assert(base + l.take(0) =~= base);
            while j < list.len()
                invariant
                    j <= list.len(),
                    l == list.deep_view(),
                    out.deep_view() == base + l.take(j as int),
                decreases list.len() - j,
            {
                let ghost before = out.deep_view();
                out.push(&list[j]);
                proof {
                    assert(l[j as int] == list@[j as int]@);
                    assert(out.deep_view() =~= before.push(l[j as int]));
                    assert(out.deep_view() =~= base + l.take(j + 1));
                }
                j = j + 1;
            }
            assert(l.take(j as int) =~= l);
            i = i + 1;
        }
        assert(ks.take(i as int) =~= ks);
        out
    }

    /// Conflicts decided by the last winner rule so far.
    pub fn winner_fallbacks(&self) -> (r: u64)
        ensures
            r == self@.winner_fallbacks,
    {
        self.winner_fallbacks
    }

    /// Held batches.
    pub fn quarantine(&self) -> (r: &Quarantine)
        ensures
            r@ == self@.quarantine,
    {
        &self.quarantine
    }

    /// The paused state, if the folder is paused.
    pub fn paused(&self) -> (r: Option<&Paused>)
        ensures
            r is Some == self@.paused is Some,
            r is Some ==> *(r->0) == self@.paused->0,
    {
        self.paused.as_ref()
    }

    /// True if the path's want is in a short-lived state.
    pub fn in_flight(&self, path: &RelPath) -> (r: bool)
        ensures
            r == self@.in_flight(path@),
    {
        self.wants.in_flight(path)
    }

    /// Something was written at `now`: opens or extends the window.
    fn touched(&mut self, now: Timestamp)
        ensures
            final(self)@ == old(self)@.touched(now),
    {
        self.window = Some(
            match self.window {
                None => Window { opened: now, last: now },
                Some(w) => Window {
                    opened: w.opened,
                    last: if w.last.0 >= now.0 {
                        w.last
                    } else {
                        now
                    },
                },
            },
        );
    }

    /// What the index believes is at `path`.
    fn expected(&self, path: &RelPath) -> (r: Option<Expected>)
        ensures
            r == self@.expected(path@),
    {
        match self.index.live(path) {
            Some(r) => Some(
                Expected {
                    kind: r.entry.kind,
                    size: r.entry.size,
                    mtime_ns: r.entry.mtime_ns,
                },
            ),
            None => None,
        }
    }

    /// Keeps an entry waiting at a path.
    fn defer(&mut self, path: &RelPath, d: Deferred)
        ensures
            final(self)@ == old(self)@.deferring(path@, d@),
    {
        let ghost start = self@;
        let mut list: Vec<Deferred> = match self.deferred.remove(path) {
            Some(l) => l,
            None => Vec::new(),
        };
        let ghost before = list.deep_view();
        assert(before =~= start.waiting(path@));
        list.push(d);
        assert(list.deep_view() =~= before.push(d@));
        self.deferred.insert(path.dup(), list);
        assert(self@.deferred =~= start.deferring(path@, d@).deferred);
    }

    /// Puts an accepted item in the want-list, or keeps it waiting if another version is wanted
    /// there.
    fn want(
        &mut self,
        item: ApplyItem,
        raw: Entry,
        batch: BatchId,
        source: NodeId,
        seq_high: u64,
    )
        ensures
            final(self)@ == old(self)@.wanting(item@, raw@, batch, source, seq_high),
    {
        if let Some(item) = self.wants.insert_received(item, raw, batch, source, seq_high) {
            let path = item.path().dup();
            let entry = item.incoming().dup();
            self.defer(
                &path,
                Deferred {
                    entry,
                    batch,
                    source,
                    seq_high,
                    reason: DeferredReason::ChangedUnderneath,
                },
            );
        }
    }

    /// Puts accepted items in the want-list, in turn.
    fn want_all(
        &mut self,
        pairs: &Vec<(ApplyItem, Entry)>,
        batch: BatchId,
        source: NodeId,
        seq_high: u64,
    )
        ensures
            final(self)@ == old(self)@.wanting_all(pairs.deep_view(), batch, source, seq_high),
    {
        let ghost ps = pairs.deep_view();
        let ghost start = self@;
        let mut i: usize = 0;
        assert(ps.take(0) =~= Seq::empty());
        while i < pairs.len()
            invariant
                i <= pairs.len(),
                ps == pairs.deep_view(),
                self@ == start.wanting_all(ps.take(i as int), batch, source, seq_high),
            decreases pairs.len() - i,
        {
            assert(ps.take(i + 1).drop_last() =~= ps.take(i as int));
            assert(ps.take(i + 1).last() == pairs@[i as int].deep_view());
            self.want(pairs[i].0.dup(), pairs[i].1.dup(), batch, source, seq_high);
            i = i + 1;
        }
        assert(ps.take(i as int) =~= ps);
    }
}

/// Everything that waits at some paths.
pub open spec fn waiting_among(
    deferred: Map<Seq<u8>, Seq<DeferredView>>,
    ks: Seq<Seq<u8>>,
) -> Seq<DeferredView>
    decreases ks.len(),
{
    if ks.len() == 0 {
        Seq::empty()
    } else {
        waiting_among(deferred, ks.drop_last()) + deferred[ks.last()]
    }
}

/// A list in path order.
fn sort_pairs(pairs: &Vec<(ApplyItem, Entry)>) -> (r: Vec<(ApplyItem, Entry)>)
    ensures
        r.deep_view() == by_path(pairs.deep_view()),
{
    let ghost ps = pairs.deep_view();
    let mut order: OrdSet<(RelPath, u64)> = OrdSet::new();
    let mut i: usize = 0;
    while i < pairs.len()
        invariant
            i <= pairs.len(),
            ps == pairs.deep_view(),
            forall|k: (Seq<u8>, u64)| #[trigger]
                order@.contains(k) <==> path_keys(ps).contains(k) && k.1 < i,
        decreases pairs.len() - i,
    {
        assert(ps[i as int] == pairs@[i as int].deep_view());
        order.insert((pairs[i].0.path().dup(), i as u64));
        i = i + 1;
    }
    assert(order@ =~= path_keys(ps));
    let ghost ks = in_order(order@);
    let n: usize = order.len();
    let mut out: Vec<(ApplyItem, Entry)> = Vec::new();
    let mut j: usize = 0;
    while j < n
        invariant
            j <= n,
            n == order@.len(),
            n == ks.len(),
            ks == in_order(order@),
            order@ == path_keys(ps),
            ps == pairs.deep_view(),
            out.len() == j,
            forall|x: int| 0 <= x < j ==> (#[trigger] out@[x]).deep_view() == ps[ks[x].1 as int],
        decreases n - j,
    {
        let key = order.at(j);
        let at: u64 = key.1;
        assert(key.key() == ks[j as int]);
        assert(path_keys(ps).contains(ks[j as int]));
        assert(at == ks[j as int].1);
        assert(ps.len() == pairs.len());
        assert(at as usize == at);
        assert(ps[at as int] == pairs@[at as int].deep_view());
        out.push(pairs[at as usize].dup());
        j = j + 1;
    }
    assert(out.deep_view() =~= by_path(ps));
    out
}

/// The items of a list.
fn split_items(pairs: &Vec<(ApplyItem, Entry)>) -> (r: Vec<ApplyItem>)
    ensures
        r.deep_view() == items_of(pairs.deep_view()),
{
    let ghost ps = pairs.deep_view();
    let mut items: Vec<ApplyItem> = Vec::new();
    let mut i: usize = 0;
    while i < pairs.len()
        invariant
            i <= pairs.len(),
            ps == pairs.deep_view(),
            items.len() == i,
            forall|x: int| 0 <= x < i ==> (#[trigger] items@[x]).deep_view() == ps[x].0,
        decreases pairs.len() - i,
    {
        assert(ps[i as int] == pairs@[i as int].deep_view());
        items.push(pairs[i].0.dup());
        i = i + 1;
    }
    assert(items.deep_view() =~= items_of(ps));
    items
}

/// The entries of a list as received, by path.
fn split_raws(pairs: &Vec<(ApplyItem, Entry)>) -> (r: OrdMap<RelPath, Entry>)
    ensures
        r@ == raws_of(pairs.deep_view()),
{
    let ghost ps = pairs.deep_view();
    let mut raws: OrdMap<RelPath, Entry> = OrdMap::new();
    let mut i: usize = 0;
    assert(ps.take(0) =~= Seq::empty());
    while i < pairs.len()
        invariant
            i <= pairs.len(),
            ps == pairs.deep_view(),
            raws@ == raws_of(ps.take(i as int)),
        decreases pairs.len() - i,
    {
        assert(ps.take(i + 1).drop_last() =~= ps.take(i as int));
        assert(ps.take(i + 1).last() == pairs@[i as int].deep_view());
        raws.insert(pairs[i].0.path().dup(), pairs[i].1.dup());
        i = i + 1;
    }
    assert(ps.take(i as int) =~= ps);
    raws
}

/// Items grouped by the batch they came in.
type Grouped = OrdMap<((BatchId, NodeId), u64), Vec<(ApplyItem, Entry)>>;

impl FolderState {
    /// The items of one batch meet the brake: held under the batch, or wanted.
    fn let_in_group(
        &mut self,
        now: Timestamp,
        key: &((BatchId, NodeId), u64),
        unsorted: &Vec<(ApplyItem, Entry)>,
        brake: bool,
    )
        ensures
            final(self)@ == old(self)@.admit_group(now, *key, unsorted.deep_view(), brake),
    {
        proof {
            reveal(FolderView::admit_group);
        }
        let batch = (key.0).0;
        let source = (key.0).1;
        let seq_high: u64 = key.1;
        let pairs = sort_pairs(unsorted);
        let items = split_items(&pairs);
        let raws = split_raws(&pairs);
        let ghost start = self@;
        let summary = items_summary(&self.index, &items);
        let verdict = if brake {
            evaluate(&self.rules, &summary, self.index.tracked_count())
        } else {
            Verdict::Pass
        };
        match verdict {
            Verdict::Hold(reason) => {
                let paths: usize = items.len();
                let ghost before = self.statuses.deep_view();
                if self.quarantine.get(batch).is_some() {
                    let n: usize = raws.len();
                    let ghost ks = in_order(raws@.dom());
                    let mut i: usize = 0;
                    assert(ks.take(0) =~= Seq::empty());
                    while i < n
                        invariant
                            i <= n,
                            n == raws@.dom().len(),
                            n == ks.len(),
                            ks == in_order(raws@.dom()),
                            self@ == (FolderView {
                                quarantine: start.quarantine.joined_all(
                                    raws@,
                                    ks.take(i as int),
                                    batch,
                                ),
                                ..start
                            }),
                        decreases n - i,
                    {
                        proof {
                            lemma_take_contains(ks, i as int, ks[i as int]);
                        }
                        self.quarantine.join(batch, raws.value_at(i).dup());
                        i = i + 1;
                    }
                    assert(ks.take(i as int) =~= ks);
                    self.statuses.push(FolderStatus::JoinedHeld { batch, count: paths });
                    assert(self.statuses.deep_view() =~= before.push(
                        StatusView::JoinedHeld { batch, count: paths as nat },
                    ));
                } else {
                    self.quarantine.hold(
                        HeldItem { batch, source, seq_high, held_at: now, reason, entries: raws },
                    );
                    self.statuses.push(
                        FolderStatus::Held { batch, source, reason, summary, paths },
                    );
                    assert(self.statuses.deep_view() =~= before.push(
                        StatusView::Held { batch, source, reason, summary, paths: paths as nat },
                    ));
                }
            },
            Verdict::Pass => {
                self.want_all(&pairs, batch, source, seq_high);
            },
        }
    }

    /// Lets re-classified items in as received ones are: a version that is wanted already only
    /// names a source; one that is quarantined, or dominates a quarantined one, joins its item;
    /// one whose own batch is under review joins it too; the rest meets the brake, one apply set
    /// for each batch. `brake` is false for an explicit approval.
    fn let_in(&mut self, now: Timestamp, candidates: &Vec<Candidate>, brake: bool)
        ensures
            final(self)@ == old(self)@.let_in(now, candidates.deep_view(), brake),
    {
        proof {
            reveal(FolderView::let_in);
        }
        let ghost start = self@;
        let ghost cs = candidates.deep_view();
        let ghost init = Sorting {
            wants: start.wants,
            quarantine: start.quarantine,
            groups: Map::empty(),
            joined: Map::empty(),
        };
        let mut groups: Grouped = OrdMap::new();
        let mut joined: OrdMap<BatchId, usize> = OrdMap::new();
        let mut i: usize = 0;
        assert(cs.take(0) =~= Seq::empty());
        while i < candidates.len()
            invariant
                i <= candidates.len(),
                cs == candidates.deep_view(),
                self@ == (FolderView {
                    wants: init.sort_all(cs.take(i as int), brake).wants,
                    quarantine: init.sort_all(cs.take(i as int), brake).quarantine,
                    ..start
                }),
                groups@ == init.sort_all(cs.take(i as int), brake).groups,
                joined@ == init.sort_all(cs.take(i as int), brake).joined,
                forall|b: BatchId| #[trigger] joined@.contains_key(b) ==> joined@[b] <= i,
            decreases candidates.len() - i,
        {
            let c = &candidates[i];
            let ghost st = init.sort_all(cs.take(i as int), brake);
            proof {
                assert(cs.take(i + 1).drop_last() =~= cs.take(i as int));
                assert(cs.take(i + 1).last() == c@);
            }
            let entry = c.item.incoming();
            let wanted = match self.wants.get(c.item.path()) {
                Some(w) => entry.version.same(w.version()) || w.version().dominates(&entry.version),
                None => false,
            };
            if wanted {
                self.wants.note_announced(c.item.path(), &entry.version, c.source);
            } else {
                let held: Option<BatchId> = match self.quarantine.matching(&c.raw) {
                    Some(b) => Some(b),
                    None => if brake && self.quarantine.get(c.batch).is_some() {
                        Some(c.batch)
                    } else {
                        None
                    },
                };
                match held {
                    Some(b) => {
                        self.quarantine.join(b, c.raw.dup());
                        let count: usize = match joined.get(&b) {
                            Some(n) => *n,
                            None => 0,
                        };
                        joined.insert(b, count + 1);
                    },
                    None => {
                        let key = ((c.batch, c.source), c.seq_high);
                        let mut list: Vec<(ApplyItem, Entry)> = match groups.remove(&key) {
                            Some(l) => l,
                            None => Vec::new(),
                        };
                        let ghost before = list.deep_view();
                        list.push((c.item.dup(), c.raw.dup()));
                        proof {
                            assert(before =~= if st.groups.contains_key(key) {
                                st.groups[key]
                            } else {
                                Seq::empty()
                            });
                            assert(list.deep_view() =~= before.push((c.item@, c.raw@)));
                        }
                        groups.insert(key, list);
                        assert(groups@ =~= st.groups.insert(key, list.deep_view()));
                    },
                }
            }
            i = i + 1;
        }
        assert(cs.take(i as int) =~= cs);
        let ghost t = start.sorted_out(cs, brake);
        let ghost mid = self@;
        let n: usize = joined.len();
        let ghost js = in_order(joined@.dom());
        let ghost base = self.statuses.deep_view();
        let mut j: usize = 0;
        assert(js.take(0) =~= Seq::empty());
        assert(base + joined_statuses(t.joined, js.take(0)) =~= base);
        while j < n
            invariant
                j <= n,
                n == joined@.dom().len(),
                n == js.len(),
                joined@ == t.joined,
                js == in_order(joined@.dom()),
                self@ == (FolderView { statuses: self@.statuses, ..mid }),
                self@.statuses == base + joined_statuses(t.joined, js.take(j as int)),
            decreases n - j,
        {
            let batch: BatchId = *joined.key_at(j);
            let count: usize = *joined.value_at(j);
            let ghost before = self.statuses.deep_view();
            self.statuses.push(FolderStatus::JoinedHeld { batch, count });
            proof {
                lemma_take_contains(js, j as int, batch);
                assert(js.take(j + 1).last() == batch);
                assert(self.statuses.deep_view() =~= before.push(
                    StatusView::JoinedHeld { batch, count: count as nat },
                ));
                assert(self@.statuses =~= base + joined_statuses(t.joined, js.take(j + 1)));
            }
            j = j + 1;
        }
        assert(js.take(j as int) =~= js);
        let ghost ready = self@;
        let m: usize = groups.len();
        let ghost gs = in_order(groups@.dom());
        let mut k: usize = 0;
        assert(gs.take(0) =~= Seq::empty());
        while k < m
            invariant
                k <= m,
                m == groups@.dom().len(),
                m == gs.len(),
                groups@ == t.groups,
                gs == in_order(groups@.dom()),
                self@ == ready.admit_groups(now, t.groups, gs.take(k as int), brake),
            decreases m - k,
        {
            let key = groups.key_at(k);
            let pairs = groups.value_at(k);
            proof {
                lemma_take_contains(gs, k as int, gs[k as int]);
                assert(gs.take(k + 1).last() == gs[k as int]);
                assert(key.key() == gs[k as int]);
                assert(*key == gs[k as int]);
            }
            self.let_in_group(now, key, pairs, brake);
            k = k + 1;
        }
        assert(gs.take(k as int) =~= gs);
    }
}

/// The entries of a list that wait for a reason.
fn take_waiting(list: &Vec<Deferred>, reason: DeferredReason) -> (r: Vec<Deferred>)
    ensures
        r.deep_view() == taken(list.deep_view(), reason),
{
    let ghost l = list.deep_view();
    let mut out: Vec<Deferred> = Vec::new();
    let mut i: usize = 0;
    assert(l.take(0) =~= Seq::empty());
    assert(out.deep_view() =~= taken(l.take(0), reason));
    while i < list.len()
        invariant
            i <= list.len(),
            l == list.deep_view(),
            out.deep_view() == taken(l.take(i as int), reason),
        decreases list.len() - i,
    {
        let ghost before = out.deep_view();
        assert(l.take(i + 1).drop_last() =~= l.take(i as int));
        assert(l.take(i + 1).last() == list@[i as int]@);
        if list[i].reason == reason {
            out.push(list[i].dup());
            assert(out.deep_view() =~= before.push(list@[i as int]@));
        }
        i = i + 1;
    }
    assert(l.take(i as int) =~= l);
    out
}

/// The entries of a list that wait for another reason.
fn keep_waiting(list: &Vec<Deferred>, reason: DeferredReason) -> (r: Vec<Deferred>)
    ensures
        r.deep_view() == kept(list.deep_view(), reason),
{
    let ghost l = list.deep_view();
    let mut out: Vec<Deferred> = Vec::new();
    let mut i: usize = 0;
    assert(l.take(0) =~= Seq::empty());
    assert(out.deep_view() =~= kept(l.take(0), reason));
    while i < list.len()
        invariant
            i <= list.len(),
            l == list.deep_view(),
            out.deep_view() == kept(l.take(i as int), reason),
        decreases list.len() - i,
    {
        let ghost before = out.deep_view();
        assert(l.take(i + 1).drop_last() =~= l.take(i as int));
        assert(l.take(i + 1).last() == list@[i as int]@);
        if list[i].reason != reason {
            out.push(list[i].dup());
            assert(out.deep_view() =~= before.push(list@[i as int]@));
        }
        i = i + 1;
    }
    assert(l.take(i as int) =~= l);
    out
}

impl FolderState {
    /// Counts conflicts that the last winner rule decided.
    fn count_fallbacks(&mut self, n: usize)
        ensures
            final(self)@ == old(self)@.counting(n as nat),
    {
        self.winner_fallbacks = self.winner_fallbacks.saturating_add(n as u64);
    }

    /// Replaces the want at a path by what an entry now comes to.
    fn rederive(&mut self, now: Timestamp, path: &RelPath, old_want: &Want, entry: &Entry)
        requires
            old(self)@.wants.get(path@) is Some,
        ensures
            final(self)@ == old(self)@.rederived(now, path@, old_want@, entry@),
    {
        proof {
            reveal(FolderView::rederived);
        }
        let ghost start = self@;
        let classified = classify(&self.index, entry);
        self.wants.remove(path);
        self.count_fallbacks(
            if classified.fallback {
                1
            } else {
                0
            },
        );
        if let Some(item) = classified.item {
            let same = item.incoming().version.same(&old_want.entry.version);
            let mut list: Vec<Candidate> = Vec::new();
            let ghost item_view = item@;
            list.push(
                Candidate {
                    item,
                    raw: old_want.received.dup(),
                    batch: old_want.batch,
                    source: old_want.source,
                    seq_high: old_want.seq_high,
                },
            );
            assert(list.deep_view() =~= seq![
                CandidateView {
                    item: item_view,
                    raw: old_want@.received,
                    batch: old_want@.batch,
                    source: old_want@.source,
                    seq_high: old_want@.seq_high,
                },
            ]);
            self.let_in(now, &list, true);
            if same {
                let ghost mid = self@;
                let n: usize = old_want.sources.len();
                let ghost ns = in_order(old_want@.sources);
                let mut i: usize = 0;
                assert(ns.take(0) =~= Seq::empty());
                while i < n
                    invariant
                        i <= n,
                        n == old_want@.sources.len(),
                        n == ns.len(),
                        ns == in_order(old_want@.sources),
                        self@ == mid.naming(path@, old_want@.entry.version, ns.take(i as int)),
                    decreases n - i,
                {
                    let node: NodeId = *old_want.sources.at(i);
                    proof {
                        lemma_take_contains(ns, i as int, node);
                        assert(ns.take(i + 1).last() == node);
                    }
                    self.wants.note_announced(path, &old_want.entry.version, node);
                    i = i + 1;
                }
                assert(ns.take(i as int) =~= ns);
            }
        }
    }

    /// The index changed under a want: classifies what is wanted against the new record. A
    /// dominating result replaces the want, and keeps its sources when the version is unchanged;
    /// anything else ends it.
    fn reclassify_want(&mut self, now: Timestamp, path: &RelPath)
        ensures
            final(self)@ == old(self)@.reclassified(now, path@),
    {
        let want = match self.wants.get(path) {
            Some(w) => w.dup(),
            None => {
                return;
            },
        };
        self.rederive(now, path, &want, &want.entry);
    }

    /// A revert changed the index under a want: classifies what was received against the record
    /// that was put back.
    fn redo_want(&mut self, now: Timestamp, path: &RelPath)
        ensures
            final(self)@ == old(self)@.redone(now, path@),
    {
        let want = match self.wants.get(path) {
            Some(w) => w.dup(),
            None => {
                return;
            },
        };
        self.rederive(now, path, &want, &want.received);
    }

    /// Classifies waiting entries against the index as it now stands, in order, drops those that
    /// the index has caught up with, and lets the rest in.
    fn classify_deferred(&mut self, now: Timestamp, list: &Vec<Deferred>)
        ensures
            final(self)@ == old(self)@.admit_waiting(now, list.deep_view()),
    {
        let ghost l = list.deep_view();
        let mut out: Vec<Candidate> = Vec::new();
        let mut fallbacks: usize = 0;
        let mut i: usize = 0;
        assert(l.take(0) =~= Seq::empty());
        assert(out.deep_view() =~= candidates_of(self@.index, l.take(0)));
        while i < list.len()
            invariant
                i <= list.len(),
                l == list.deep_view(),
                self@ == old(self)@,
                fallbacks <= i,
                fallbacks == fallbacks_of(self@.index, l.take(i as int)),
                out.deep_view() == candidates_of(self@.index, l.take(i as int)),
            decreases list.len() - i,
        {
            let d = &list[i];
            let ghost before = out.deep_view();
            assert(l.take(i + 1).drop_last() =~= l.take(i as int));
            assert(l.take(i + 1).last() == d@);
            let classified = classify(&self.index, &d.entry);
            if classified.fallback {
                fallbacks = fallbacks + 1;
            }
            if let Some(item) = classified.item {
                let c = Candidate {
                    item,
                    raw: d.entry.dup(),
                    batch: d.batch,
                    source: d.source,
                    seq_high: d.seq_high,
                };
                let ghost cv = c@;
                out.push(c);
                assert(out.deep_view() =~= before.push(cv));
            }
            i = i + 1;
        }
        assert(l.take(i as int) =~= l);
        self.count_fallbacks(fallbacks);
        self.let_in(now, &out, true);
    }

    /// Classifies the entries at `path` that wait for `reason` again, in order of arrival. Each
    /// becomes a want or is dropped.
    fn reconsider(&mut self, now: Timestamp, path: &RelPath, reason: DeferredReason)
        ensures
            final(self)@ == old(self)@.reconsidered(now, path@, reason),
    {
        proof {
            reveal(FolderView::reconsidered);
        }
        let ghost start = self@;
        let list = match self.deferred.remove(path) {
            Some(l) => l,
            None => {
                assert(self@.deferred =~= start.deferred);
                return;
            },
        };
        let take = take_waiting(&list, reason);
        let keep = keep_waiting(&list, reason);
        if keep.len() > 0 {
            let ghost kv = keep.deep_view();
            assert(kv.len() > 0);
            self.deferred.insert(path.dup(), keep);
            assert(self@.deferred =~= start.deferred.insert(path@, kv));
        } else {
            assert(keep.deep_view().len() == 0);
        }
        self.classify_deferred(now, &take);
    }

    /// The folder unpaused: every entry that waited for that is classified again, and they are
    /// let in together.
    fn unfreeze(&mut self, now: Timestamp)
        ensures
            final(self)@ == old(self)@.unfrozen(now),
    {
        proof {
            reveal(FolderView::unfrozen);
        }
        let ghost start = self@;
        let mut waiting: OrdMap<RelPath, Vec<Deferred>> = OrdMap::new();
        std::mem::swap(&mut waiting, &mut self.deferred);
        let mut frozen: Vec<Deferred> = Vec::new();
        let mut rest: OrdMap<RelPath, Vec<Deferred>> = OrdMap::new();
        let n: usize = waiting.len();
        let ghost ks = in_order(start.deferred.dom());
        let mut i: usize = 0;
        proof {
            lemma_order_facts(start.deferred.dom());
            assert(ks.take(0) =~= Seq::empty());
            assert(frozen.deep_view() =~= frozen_among(start.deferred, ks.take(0)));
        }
        while i < n
            invariant
                i <= n,
                n == waiting@.dom().len(),
                n == ks.len(),
                waiting@ == start.deferred,
                ks == in_order(start.deferred.dom()),
                ks.no_duplicates(),
                frozen.deep_view() == frozen_among(start.deferred, ks.take(i as int)),
                forall|p: Seq<u8>| #[trigger]
                    rest@.contains_key(p) <==> thawed(start.deferred).contains_key(p) && ks.take(
                        i as int,
                    ).contains(p),
                forall|p: Seq<u8>| #[trigger]
                    rest@.contains_key(p) ==> rest@[p] == thawed(start.deferred)[p],
            decreases n - i,
        {
            let path = waiting.key_at(i);
            let list = waiting.value_at(i);
            let ghost before = frozen.deep_view();
            let ghost was = rest@;
            proof {
                lemma_take_contains(ks, i as int, path@);
                assert(ks.take(i + 1).last() == path@);
            }
            let mut take = take_waiting(list, DeferredReason::Frozen);
            let keep = keep_waiting(list, DeferredReason::Frozen);
            let ghost tv = take.deep_view();
            let ghost kv = keep.deep_view();
            if keep.len() > 0 {
                assert(kv.len() > 0);
                rest.insert(path.dup(), keep);
            } else {
                assert(kv.len() == 0);
            }
            frozen.append(&mut take);
            proof {
                assert(frozen.deep_view() =~= before + tv);
                assert forall|p: Seq<u8>| #[trigger]
                    rest@.contains_key(p) <==> thawed(start.deferred).contains_key(p) && ks.take(
                        i + 1,
                    ).contains(p) by {
                    lemma_take_contains(ks, i as int, p);
                    assert(was.contains_key(p) <==> thawed(start.deferred).contains_key(p)
                        && ks.take(i as int).contains(p));
                }
            }
            i = i + 1;
        }
        assert(ks.take(i as int) =~= ks);
        assert(rest@ =~= thawed(start.deferred));
        self.deferred = rest;
        self.classify_deferred(now, &frozen);
    }

    /// The host reported `state` at `path`. Reports for a path in flight are ignored; so is
    /// `Absent` for a want made by a revert. A change at a wanted path classifies the want again.
    pub fn scanned(&mut self, now: Timestamp, path: RelPath, state: ScanState) -> (r: Scanned)
        ensures
            final(self)@ == old(self)@.scanned(now, path@, state),
            r@ == old(self)@.scan_result(now, path@, state),
    {
        self.mark_seen(&path);
        if self.wants.in_flight(&path) {
            return Scanned { change: None, status: None };
        }
        if matches!(state, ScanState::Absent) && self.wants.restoring(&path) {
            return Scanned { change: None, status: None };
        }
        let change: Option<LocalChange> = match state {
            ScanState::Observed(observed) => self.index.observe(path.dup(), observed),
            ScanState::Absent => self.index.observe_absent(&path, now.as_unix_nanos()),
            ScanState::Unchanged => {
                if self.index.live(&path).is_none() {
                    return Scanned {
                        change: None,
                        status: Some(FolderStatus::UnchangedUnknownPath { path }),
                    };
                }
                None
            },
        };
        if change.is_some() {
            self.touched(now);
            self.reclassify_want(now, &path);
        }
        self.reconsider(now, &path, DeferredReason::ChangedUnderneath);
        Scanned { change, status: None }
    }

    /// Marks a path as reported, if a scan is open.
    fn mark_seen(&mut self, path: &RelPath)
        ensures
            final(self)@ == old(self)@.seen(path@),
    {
        let mut open: Option<OrdSet<RelPath>> = None;
        std::mem::swap(&mut open, &mut self.scan);
        if let Some(seen) = open {
            let mut seen = seen;
            seen.insert(path.dup());
            self.scan = Some(seen);
        }
    }

    /// A full scan begins: starts collecting the paths it reports.
    pub fn scan_started(&mut self)
        ensures
            final(self)@ == (FolderView { scan: Some(Set::empty()), ..old(self)@ }),
    {
        self.scan = Some(OrdSet::new());
    }

    /// A full scan ended: every live record it did not report is gone, except paths in flight and
    /// paths being restored by a revert. Returns the tombstones, or the status if no scan was
    /// open.
    pub fn scan_finished(&mut self, now: Timestamp) -> (r: Result<Vec<LocalChange>, FolderStatus>)
        ensures
            final(self)@ == old(self)@.scan_finished(now),
            match r {
                Ok(changes) => old(self)@.scan is Some && changes.deep_view() == old(
                    self,
                )@.scan_swept(now, old(self)@.scan->0).changes,
                Err(status) => old(self)@.scan is None && status@ == StatusView::ScanNotOpen,
            },
    {
        let mut open: Option<OrdSet<RelPath>> = None;
        std::mem::swap(&mut open, &mut self.scan);
        let seen = match open {
            Some(seen) => seen,
            None => {
                return Err(FolderStatus::ScanNotOpen);
            },
        };
        let ghost start = self@;
        assert(start == (FolderView { scan: None, ..old(self)@ }));
        let gone = self.gone_paths(&seen);
        let ghost gs = gone.deep_view();
        let ghost w0 = WithChanges { folder: start, changes: Seq::empty() };
        let mut changes: Vec<LocalChange> = Vec::new();
        let mut i: usize = 0;
        assert(gs.take(0) =~= Seq::empty());
        assert(changes.deep_view() =~= Seq::empty());
        while i < gone.len()
            invariant
                i <= gone.len(),
                gs == gone.deep_view(),
                (WithChanges { folder: self@, changes: changes.deep_view() }) == w0.vanished_all(
                    now,
                    gs.take(i as int),
                ),
            decreases gone.len() - i,
        {
            let path = &gone[i];
            let ghost before = changes.deep_view();
            assert(gs.take(i + 1).drop_last() =~= gs.take(i as int));
            assert(gs.take(i + 1).last() == path@);
            if let Some(change) = self.index.observe_absent(path, now.as_unix_nanos()) {
                let ghost cv = change@;
                changes.push(change);
                assert(changes.deep_view() =~= before.push(cv));
                self.reclassify_want(now, path);
            }
            self.reconsider(now, path, DeferredReason::ChangedUnderneath);
            i = i + 1;
        }
        assert(gs.take(i as int) =~= gs);
        let ghost mid = self@;
        let unseen = self.unseen_paths(&seen);
        let ghost us = unseen.deep_view();
        let mut j: usize = 0;
        assert(us.take(0) =~= Seq::empty());
        while j < unseen.len()
            invariant
                j <= unseen.len(),
                us == unseen.deep_view(),
                self@ == mid.reconsidered_all(now, us.take(j as int)),
            decreases unseen.len() - j,
        {
            assert(us.take(j + 1).drop_last() =~= us.take(j as int));
            assert(us.take(j + 1).last() == unseen@[j as int]@);
            self.reconsider(now, &unseen[j], DeferredReason::ChangedUnderneath);
            j = j + 1;
        }
        assert(us.take(j as int) =~= us);
        assert(changes.deep_view().len() == changes.len());
        if changes.len() > 0 {
            self.touched(now);
        }
        Ok(changes)
    }

    /// The paths of live records that a scan did not report and that may be gone.
    fn gone_paths(&self, seen: &OrdSet<RelPath>) -> (r: Vec<RelPath>)
        ensures
            r.deep_view() == self@.gone_among(
                crate::index::live_among(self@.index.records, self@.index.paths()),
                seen@,
            ),
    {
        let live = self.index.live_records();
        let ghost rs = live.deep_view();
        let mut out: Vec<RelPath> = Vec::new();
        let mut i: usize = 0;
        assert(rs.take(0) =~= Seq::empty());
        assert(out.deep_view() =~= self@.gone_among(rs.take(0), seen@));
        while i < live.len()
            invariant
                i <= live.len(),
                rs == live.deep_view(),
                out.deep_view() == self@.gone_among(rs.take(i as int), seen@),
            decreases live.len() - i,
        {
            let path = &live[i].entry.path;
            let ghost before = out.deep_view();
            assert(rs.take(i + 1).drop_last() =~= rs.take(i as int));
            assert(rs.take(i + 1).last() == live@[i as int].deep_view());
            if !seen.contains(path) && !self.wants.in_flight(path) && !self.wants.restoring(path) {
                out.push(path.dup());
                assert(out.deep_view() =~= before.push(path@));
            }
            i = i + 1;
        }
        assert(rs.take(i as int) =~= rs);
        out
    }

    /// The paths where an entry waits that no scan will report.
    fn unseen_paths(&self, seen: &OrdSet<RelPath>) -> (r: Vec<RelPath>)
        ensures
            r.deep_view() == self@.unseen_among(in_order(self@.deferred.dom()), seen@),
    {
        let n: usize = self.deferred.len();
        let ghost ks = in_order(self@.deferred.dom());
        let mut out: Vec<RelPath> = Vec::new();
        let mut i: usize = 0;
        assert(ks.take(0) =~= Seq::empty());
        assert(out.deep_view() =~= self@.unseen_among(ks.take(0), seen@));
        while i < n
            invariant
                i <= n,
                n == self.deferred@.dom().len(),
                n == ks.len(),
                self@.deferred == self.deferred@,
                ks == in_order(self@.deferred.dom()),
                out.deep_view() == self@.unseen_among(ks.take(i as int), seen@),
            decreases n - i,
        {
            let path = self.deferred.key_at(i);
            let ghost before = out.deep_view();
            assert(ks.take(i + 1).drop_last() =~= ks.take(i as int));
            if !seen.contains(path) && self.index.live(path).is_none() && !self.wants.in_flight(
                path,
            ) {
                out.push(path.dup());
                assert(out.deep_view() =~= before.push(path@));
            }
            i = i + 1;
        }
        assert(ks.take(i as int) =~= ks);
        out
    }

    /// The host stopped a scan: forgets what it reported and announces nothing. What was observed
    /// already stands.
    pub fn scan_aborted(&mut self) -> (r: Result<(), FolderStatus>)
        ensures
            final(self)@ == (FolderView { scan: None, ..old(self)@ }),
            match r {
                Ok(_) => old(self)@.scan is Some,
                Err(status) => old(self)@.scan is None && status@ == StatusView::ScanNotOpen,
            },
    {
        let open = self.scan.is_some();
        self.scan = None;
        if open {
            Ok(())
        } else {
            Err(FolderStatus::ScanNotOpen)
        }
    }

    /// The check before sending: the summary that the next batch would carry, against the entries
    /// tracked at the last announcement.
    pub fn precheck(&self) -> (r: (Summary, Verdict))
        ensures
            r == self@.precheck(),
    {
        let records = self.index.unannounced();
        let ghost rs = records.deep_view();
        let mut summary = Summary { adds: 0, mods: 0, dels: 0, bytes: 0 };
        let mut i: usize = 0;
        assert(rs.take(0) =~= Seq::empty());
        while i < records.len()
            invariant
                i <= records.len(),
                rs == records.deep_view(),
                summary == crate::batch::summary_of(rs.take(i as int)),
            decreases records.len() - i,
        {
            assert(rs.take(i + 1).drop_last() =~= rs.take(i as int));
            assert(rs.take(i + 1).last() == records@[i as int].deep_view());
            if let Some(kind) = records[i].1 {
                summary.count(&records[i].0.entry, kind);
            }
            i = i + 1;
        }
        assert(rs.take(i as int) =~= rs);
        let verdict = evaluate(&self.rules, &summary, self.index.announced_tracked());
        (summary, verdict)
    }

    /// The batches that everything unannounced forms.
    fn fresh_batches(&self, now: Timestamp, base: BatchId) -> (r: Vec<Batch>)
        ensures
            r.deep_view() == self@.fresh_batches(now, base),
    {
        form(
            base,
            self.id,
            self.index.own(),
            now,
            &self.index.unannounced(),
            self.index.announced_seq(),
        )
    }

    /// Forms the batch or batches for everything written since the last one, and closes the
    /// window. Denials are final with that. There is no check: see [`FolderState::tick`].
    pub fn form_batches(&mut self, now: Timestamp, base: BatchId) -> (r: Vec<Batch>)
        ensures
            final(self)@ == old(self)@.announced(),
            r.deep_view() == old(self)@.fresh_batches(now, base),
    {
        let batches = self.fresh_batches(now, base);
        self.index.mark_announced();
        self.window = None;
        self.quarantine.forget_denied();
        batches
    }

    /// The window is due: runs the check and forms the batch, or pauses. On a paused folder the
    /// check runs for the status only. `base` is reserved for the paused batch.
    pub fn tick(&mut self, now: Timestamp, base: BatchId) -> (r: Ticked)
        ensures
            final(self)@ == old(self)@.ticked(now, base),
            r@ == old(self)@.tick_result(now, base),
    {
        if !self.is_due(now) {
            return Ticked::Nothing;
        }
        let (summary, verdict) = self.precheck();
        if let Some(paused) = self.paused {
            self.window = None;
            let would_pass = !verdict.is_hold();
            self.paused = Some(
                Paused {
                    batch: paused.batch,
                    since: paused.since,
                    reason: paused.reason,
                    summary,
                    would_pass,
                },
            );
            let snapshot: Vec<Batch> = Vec::new();
            assert(snapshot.deep_view() =~= Seq::empty());
            return Ticked::Paused {
                first: false,
                snapshot,
                status: FolderStatus::PausedRecheck { batch: paused.batch, would_pass, summary },
            };
        }
        match verdict {
            Verdict::Pass => {
                let batches = self.form_batches(now, base);
                assert(batches.deep_view().len() == batches.len());
                if batches.len() == 0 {
                    Ticked::Nothing
                } else {
                    Ticked::Sent(batches)
                }
            },
            Verdict::Hold(reason) => {
                let snapshot = self.fresh_batches(now, base);
                self.window = None;
                self.paused = Some(
                    Paused { batch: base, since: now, reason, summary, would_pass: false },
                );
                Ticked::Paused {
                    first: true,
                    snapshot,
                    status: FolderStatus::Paused { batch: base, reason, summary },
                }
            },
        }
    }

    /// Deadlines that have passed return their wants to `Wanted`. Returns the paths.
    pub fn expire(&mut self, now: Timestamp) -> (r: Vec<RelPath>)
        ensures
            r.deep_view() == crate::want::overdue_among(
                old(self)@.wants.wants,
                old(self)@.wants.paths(),
                now,
            ),
            final(self)@ == (FolderView {
                wants: old(self)@.wants.with_states(
                    crate::want::overdue_among(
                        old(self)@.wants.wants,
                        old(self)@.wants.paths(),
                        now,
                    ),
                    WantState::Wanted,
                ),
                ..old(self)@
            }),
    {
        self.wants.expire(now)
    }

    /// A peer told us the highest sequence number of ours it holds: it is caught up at the next
    /// tick.
    pub fn have_up_to(&mut self, peer: NodeId, seq: u64)
        ensures
            final(self)@ == (FolderView {
                acked: old(self)@.acked.insert(peer, seq),
                catchup: old(self)@.catchup.insert(peer),
                ..old(self)@
            }),
    {
        self.acked.insert(peer, seq);
        self.catchup.insert(peer);
    }

    /// Catch-up batches for every peer that awaits them: announced records above what it holds.
    /// Identifiers are `base` and those after it; returns how many were used.
    pub fn catchup_batches(&mut self, now: Timestamp, base: BatchId) -> (r: (
        Vec<(NodeId, Vec<Batch>)>,
        u128,
    ))
        ensures
            final(self)@ == (FolderView { catchup: Set::empty(), ..old(self)@ }),
            r.0.deep_view() == old(self)@.catchup_all(now, base, in_order(old(self)@.catchup)),
            r.1 == old(self)@.catchup_used(now, base, in_order(old(self)@.catchup)),
    {
        let mut peers: OrdSet<NodeId> = OrdSet::new();
        std::mem::swap(&mut peers, &mut self.catchup);
        let ghost start = old(self)@;
        let ghost ps = in_order(start.catchup);
        let n: usize = peers.len();
        let mut out: Vec<(NodeId, Vec<Batch>)> = Vec::new();
        let mut used: u128 = 0;
        let mut i: usize = 0;
        assert(ps.take(0) =~= Seq::empty());
        assert(out.deep_view() =~= start.catchup_all(now, base, ps.take(0)));
        while i < n
            invariant
                i <= n,
                n == peers@.len(),
                n == ps.len(),
                peers@ == start.catchup,
                ps == in_order(start.catchup),
                self@ == (FolderView { catchup: Set::empty(), ..start }),
                used <= i * 0x1_0000_0000_0000_0000,
                used == start.catchup_used(now, base, ps.take(i as int)),
                out.deep_view() == start.catchup_all(now, base, ps.take(i as int)),
            decreases n - i,
        {
            let peer: NodeId = *peers.at(i);
            let ghost before = out.deep_view();
            proof {
                lemma_take_contains(ps, i as int, peer);
                assert(ps.take(i + 1).last() == peer);
            }
            let batches = self.catchup_for(now, base.successor(used), peer);
            assert(batches.deep_view() == start.catchup_for(now, base.after(used as int), peer));
            assert(batches.deep_view().len() == batches.len());
            let count: usize = batches.len();
            if batches.len() > 0 {
                let ghost bv = batches.deep_view();
                out.push((peer, batches));
                assert(out.deep_view() =~= before.push((peer, bv)));
            }
            proof {
                assert(i * 0x1_0000_0000_0000_0000 + 0x1_0000_0000_0000_0000 == (i + 1)
                    * 0x1_0000_0000_0000_0000);
                assert((i + 1) * 0x1_0000_0000_0000_0000 <= u128::MAX + 1) by (nonlinear_arith)
                    requires
                        i + 1 <= 0x1_0000_0000_0000_0000,
                ;
                assert(count < 0x1_0000_0000_0000_0000);
            }
            used = used + count as u128;
            i = i + 1;
        }
        assert(ps.take(i as int) =~= ps);
        (out, used)
    }

    /// The batches that bring a peer up to date.
    fn catchup_for(&self, now: Timestamp, base: BatchId, peer: NodeId) -> (r: Vec<Batch>)
        ensures
            r.deep_view() == self@.catchup_for(now, base, peer),
    {
        let after: u64 = self.acked_by(peer);
        let announced = self.index.announced_since(after);
        let ghost rs = announced.deep_view();
        let mut records: Vec<(&IndexRecord, Option<ChangeKind>)> = Vec::new();
        let mut i: usize = 0;
        while i < announced.len()
            invariant
                i <= announced.len(),
                rs == announced.deep_view(),
                records.len() == i,
                forall|j: int|
                    0 <= j < i ==> (#[trigger] records@[j]).deep_view() == (
                        rs[j],
                        None::<ChangeKind>,
                    ),
            decreases announced.len() - i,
        {
            assert(rs[i as int] == announced@[i as int].deep_view());
            records.push((announced[i], None));
            i = i + 1;
        }
        assert(records.deep_view() =~= Seq::new(
            rs.len(),
            |i: int| (rs[i], None::<ChangeKind>),
        ));
        form(base, self.id, self.index.own(), now, &records, after)
    }
}

/// The last entry of each path.
fn latest_by_path(entries: &Vec<Entry>) -> (r: OrdMap<RelPath, Entry>)
    ensures
        r@ == crate::batch::last_by_path(entries.deep_view()),
{
    let ghost es = entries.deep_view();
    let mut latest: OrdMap<RelPath, Entry> = OrdMap::new();
    let mut i: usize = 0;
    assert(es.take(0) =~= Seq::empty());
    while i < entries.len()
        invariant
            i <= entries.len(),
            es == entries.deep_view(),
            latest@ == crate::batch::last_by_path(es.take(i as int)),
        decreases entries.len() - i,
    {
        let entry = &entries[i];
        assert(es.take(i + 1).drop_last() =~= es.take(i as int));
        assert(es.take(i + 1).last() == entry@);
        latest.insert(entry.path.dup(), entry.dup());
        i = i + 1;
    }
    assert(es.take(i as int) =~= es);
    latest
}

/// The entries of some items as received.
fn raws_of_items(items: &Vec<ApplyItem>, raw: &OrdMap<RelPath, Entry>) -> (r: OrdMap<
    RelPath,
    Entry,
>)
    ensures
        r@ == raws_for(items.deep_view(), raw@),
{
    let ghost is = items.deep_view();
    let mut out: OrdMap<RelPath, Entry> = OrdMap::new();
    let mut i: usize = 0;
    assert(is.take(0) =~= Seq::empty());
    while i < items.len()
        invariant
            i <= items.len(),
            is == items.deep_view(),
            out@ == raws_for(is.take(i as int), raw@),
        decreases items.len() - i,
    {
        let path = items[i].path();
        assert(is.take(i + 1).drop_last() =~= is.take(i as int));
        assert(is.take(i + 1).last() == items@[i as int]@);
        if let Some(e) = raw.get(path) {
            out.insert(path.dup(), e.dup());
        }
        i = i + 1;
    }
    assert(is.take(i as int) =~= is);
    out
}

/// Items with their entries as received.
fn pair_items(items: &Vec<ApplyItem>, raw: &OrdMap<RelPath, Entry>) -> (r: Vec<(ApplyItem, Entry)>)
    ensures
        r.deep_view() == paired(items.deep_view(), raw@),
{
    let ghost is = items.deep_view();
    let mut out: Vec<(ApplyItem, Entry)> = Vec::new();
    let mut i: usize = 0;
    while i < items.len()
        invariant
            i <= items.len(),
            is == items.deep_view(),
            out.len() == i,
            forall|j: int|
                0 <= j < i ==> (#[trigger] out@[j]).deep_view() == paired(is, raw@)[j],
        decreases items.len() - i,
    {
        let item = &items[i];
        assert(is[i as int] == item@);
        let e = match raw.get(item.path()) {
            Some(e) => e.dup(),
            None => item.incoming().dup(),
        };
        out.push((item.dup(), e));
        i = i + 1;
    }
    assert(out.deep_view() =~= paired(is, raw@));
    out
}

impl FolderState {
    /// Names a source for the entries that a batch carried.
    fn name_source(&mut self, raw: &OrdMap<RelPath, Entry>, source: NodeId)
        ensures
            final(self)@ == old(self)@.sourced(raw@, in_order(raw@.dom()), source),
    {
        let ghost start = self@;
        let n: usize = raw.len();
        let ghost ks = in_order(raw@.dom());
        let mut i: usize = 0;
        assert(ks.take(0) =~= Seq::empty());
        while i < n
            invariant
                i <= n,
                n == raw@.dom().len(),
                n == ks.len(),
                ks == in_order(raw@.dom()),
                self@ == start.sourced(raw@, ks.take(i as int), source),
            decreases n - i,
        {
            let path = raw.key_at(i);
            proof {
                lemma_take_contains(ks, i as int, path@);
                assert(ks.take(i + 1).last() == path@);
            }
            self.wants.note_announced(path, &raw.value_at(i).version, source);
            i = i + 1;
        }
        assert(ks.take(i as int) =~= ks);
    }

    /// A batch arrived: what it would change, what joins the quarantine, what waits, the brake,
    /// and the decision. Accepted items join the want-list; every entry names the batch's source
    /// as a holder of its version.
    pub fn receive(&mut self, now: Timestamp, batch: &Batch) -> (r: Received)
        ensures
            (WithReceived { folder: final(self)@, received: r@ }) == old(self)@.received(
                now,
                batch@,
            ),
    {
        self.index.received_range(batch.source, batch.seq_low, batch.seq_high);
        let mut set = apply_set(&self.index, batch);
        self.count_fallbacks(set.fallbacks);
        let raw = latest_by_path(&batch.entries);
        self.name_source(&raw, batch.source);
        let ghost rv = raw@;
        let ghost first = Receiving {
            folder: self@,
            kept: Seq::empty(),
            joined: 0,
            frozen: 0,
            already_wanted: 0,
        };
        let mut items: Vec<ApplyItem> = Vec::new();
        std::mem::swap(&mut items, &mut set.items);
        let ghost is = items.deep_view();
        let mut joined: usize = 0;
        let mut frozen: usize = 0;
        let mut already_wanted: usize = 0;
        let mut kept_items: Vec<ApplyItem> = Vec::new();
        let mut i: usize = 0;
        assert(is.take(0) =~= Seq::empty());
        assert(kept_items.deep_view() =~= Seq::empty());
        while i < items.len()
            invariant
                i <= items.len(),
                is == items.deep_view(),
                raw@ == rv,
                joined <= i,
                frozen <= i,
                already_wanted <= i,
                (Receiving {
                    folder: self@,
                    kept: kept_items.deep_view(),
                    joined: joined as nat,
                    frozen: frozen as nat,
                    already_wanted: already_wanted as nat,
                }) == first.sort_all(is.take(i as int), rv, batch@),
            decreases items.len() - i,
        {
            let item = &items[i];
            let ghost before = kept_items.deep_view();
            proof {
                assert(is.take(i + 1).drop_last() =~= is.take(i as int));
                assert(is.take(i + 1).last() == item@);
            }
            match raw.get(item.path()) {
                None => {
                    kept_items.push(item.dup());
                    assert(kept_items.deep_view() =~= before.push(item@));
                },
                Some(incoming) => {
                    let wanted = match self.wants.get(item.path()) {
                        Some(w) => item.incoming().version.same(w.version())
                            || w.version().dominates(&item.incoming().version),
                        None => false,
                    };
                    if wanted {
                        already_wanted = already_wanted + 1;
                    } else if let Some(held) = self.quarantine.matching(incoming) {
                        self.quarantine.join(held, incoming.dup());
                        joined = joined + 1;
                    } else if self.paused.is_some() && self.index.is_pending(item.path()) {
                        self.defer(
                            item.path(),
                            Deferred {
                                entry: incoming.dup(),
                                batch: batch.id,
                                source: batch.source,
                                seq_high: batch.seq_high,
                                reason: DeferredReason::Frozen,
                            },
                        );
                        frozen = frozen + 1;
                    } else {
                        kept_items.push(item.dup());
                        assert(kept_items.deep_view() =~= before.push(item@));
                    }
                },
            }
            i = i + 1;
        }
        assert(is.take(i as int) =~= is);
        set.items = kept_items;
        let summary = receiver_summary(&self.index, &set);
        match evaluate(&self.rules, &summary, self.index.tracked_count()) {
            Verdict::Hold(reason) => {
                let entries = raws_of_items(&set.items, &raw);
                self.quarantine.hold(
                    HeldItem {
                        batch: batch.id,
                        source: batch.source,
                        seq_high: batch.seq_high,
                        held_at: now,
                        reason,
                        entries,
                    },
                );
                Received {
                    set,
                    decision: Decision::Held { reason: reason.to_string() },
                    summary,
                    joined,
                    frozen,
                    already_wanted,
                    held: Some(reason),
                }
            },
            Verdict::Pass => {
                let pairs = pair_items(&set.items, &raw);
                self.want_all(&pairs, batch.id, batch.source, batch.seq_high);
                Received {
                    set,
                    decision: Decision::Accepted,
                    summary,
                    joined,
                    frozen,
                    already_wanted,
                    held: None,
                }
            },
        }
    }

    /// What the entries of a held item come to now, each with the entry that stands at its path,
    /// and how many of them the last winner rule decides.
    fn release_pairs(&self, entries: &OrdMap<RelPath, Entry>) -> (r: (
        Vec<(ApplyItem, Entry)>,
        usize,
    ))
        ensures
            r.0.deep_view() == released_among(self@.index, entries@, in_order(entries@.dom())),
            r.1 == crate::batch::fallbacks_among(
                self@.index,
                entries@,
                in_order(entries@.dom()),
            ),
    {
        let n: usize = entries.len();
        let ghost ks = in_order(entries@.dom());
        let mut out: Vec<(ApplyItem, Entry)> = Vec::new();
        let mut fallbacks: usize = 0;
        let mut i: usize = 0;
        assert(ks.take(0) =~= Seq::empty());
        assert(out.deep_view() =~= released_among(self@.index, entries@, ks.take(0)));
        while i < n
            invariant
                i <= n,
                n == entries@.dom().len(),
                n == ks.len(),
                ks == in_order(entries@.dom()),
                fallbacks <= i,
                fallbacks == crate::batch::fallbacks_among(
                    self@.index,
                    entries@,
                    ks.take(i as int),
                ),
                out.deep_view() == released_among(self@.index, entries@, ks.take(i as int)),
            decreases n - i,
        {
            let entry = entries.value_at(i);
            let ghost before = out.deep_view();
            assert(ks.take(i + 1).drop_last() =~= ks.take(i as int));
            let classified = classify(&self.index, entry);
            if classified.fallback {
                fallbacks = fallbacks + 1;
            }
            if let Some(item) = classified.item {
                let e = match entries.get(item.path()) {
                    Some(e) => e.dup(),
                    None => item.incoming().dup(),
                };
                let ghost pv = (item@, e@);
                out.push((item, e));
                assert(out.deep_view() =~= before.push(pv));
            }
            i = i + 1;
        }
        assert(ks.take(i as int) =~= ks);
        (out, fallbacks)
    }

    /// Approves a batch: releases a held item, with its entries classified against the index as it
    /// stands, or sends the paused batch.
    pub fn approve(&mut self, now: Timestamp, batch: BatchId) -> (r: Approved)
        ensures
            (WithApproved { folder: final(self)@, approved: r@ }) == old(self)@.approve(
                now,
                batch,
            ),
    {
        if let Some(item) = self.quarantine.release(batch) {
            let (unsorted, fallbacks) = self.release_pairs(&item.entries);
            let pairs = sort_pairs(&unsorted);
            self.count_fallbacks(fallbacks);
            assert(pairs.deep_view().len() == pairs.len());
            if pairs.len() == 0 {
                return Approved::Released(None);
            }
            let set = ApplySet {
                folder: self.id,
                batch: item.batch,
                source: item.source,
                seq_high: item.seq_high,
                items: split_items(&pairs),
                ignored: 0,
                duplicates: 0,
                fallbacks,
            };
            let ghost ps = pairs.deep_view();
            let mut candidates: Vec<Candidate> = Vec::new();
            let mut i: usize = 0;
            while i < pairs.len()
                invariant
                    i <= pairs.len(),
                    ps == pairs.deep_view(),
                    candidates.len() == i,
                    forall|j: int|
                        0 <= j < i ==> (#[trigger] candidates@[j]).deep_view() == (CandidateView {
                            item: ps[j].0,
                            raw: ps[j].1,
                            batch: item.batch,
                            source: item.source,
                            seq_high: item.seq_high,
                        }),
                decreases pairs.len() - i,
            {
                assert(ps[i as int] == pairs@[i as int].deep_view());
                candidates.push(
                    Candidate {
                        item: pairs[i].0.dup(),
                        raw: pairs[i].1.dup(),
                        batch: item.batch,
                        source: item.source,
                        seq_high: item.seq_high,
                    },
                );
                i = i + 1;
            }
            assert(candidates.deep_view() =~= as_candidates(
                ps,
                item.batch,
                item.source,
                item.seq_high,
            ));
            self.let_in(now, &candidates, false);
            return Approved::Released(Some(set));
        }
        if let Some(paused) = self.paused {
            if paused.batch == batch {
                let batches = self.form_batches(now, batch);
                self.paused = None;
                self.unfreeze(now);
                return Approved::Sent(batches);
            }
        }
        Approved::Unknown
    }

    /// Denies a batch: this machine's copies win. Every quarantined path gets a local version that
    /// dominates every quarantined version there, content unchanged. `None` if the batch is not
    /// held.
    pub fn deny(&mut self, now: Timestamp, batch: BatchId) -> (r: Option<Vec<LocalChange>>)
        ensures
            r is Some == old(self)@.quarantine.items.contains_key(batch),
            r is Some ==> (WithChanges {
                folder: final(self)@,
                changes: (r->0).deep_view(),
            }) == old(self)@.denial(now, batch),
            r is None ==> final(self)@ == old(self)@,
    {
        let paths: Vec<RelPath> = match self.quarantine.get(batch) {
            Some(item) => path_list(&item.entries),
            None => {
                return None;
            },
        };
        let ghost ps = paths.deep_view();
        let ghost w0 = WithChanges { folder: self@, changes: Seq::empty() };
        let mut changes: Vec<LocalChange> = Vec::new();
        let mut i: usize = 0;
        assert(ps.take(0) =~= Seq::empty());
        assert(changes.deep_view() =~= Seq::empty());
        while i < paths.len()
            invariant
                i <= paths.len(),
                ps == paths.deep_view(),
                (WithChanges { folder: self@, changes: changes.deep_view() }) == w0.bumped_all(
                    now,
                    ps.take(i as int),
                ),
            decreases paths.len() - i,
        {
            let path = &paths[i];
            let ghost before = changes.deep_view();
            assert(ps.take(i + 1).drop_last() =~= ps.take(i as int));
            assert(ps.take(i + 1).last() == path@);
            let over = self.quarantine.versions_at(path);
            let over_stamp: Option<i64> = self.quarantine.max_stamp_at(path);
            let change = self.index.bump_over(
                path,
                over.as_slice(),
                over_stamp,
                now.as_unix_nanos(),
            );
            let ghost cv = change@;
            changes.push(change);
            assert(changes.deep_view() =~= before.push(cv));
            i = i + 1;
        }
        assert(ps.take(i as int) =~= ps);
        self.quarantine.deny(batch);
        assert(ps.len() == paths.len());
        if paths.len() > 0 {
            self.touched(now);
        }
        let ghost mid = self@;
        let mut j: usize = 0;
        assert(ps.take(0) =~= Seq::empty());
        while j < paths.len()
            invariant
                j <= paths.len(),
                ps == paths.deep_view(),
                self@ == mid.reclassified_all(now, ps.take(j as int)),
            decreases paths.len() - j,
        {
            assert(ps.take(j + 1).drop_last() =~= ps.take(j as int));
            assert(ps.take(j + 1).last() == paths@[j as int]@);
            self.reclassify_want(now, &paths[j]);
            j = j + 1;
        }
        assert(ps.take(j as int) =~= ps);
        Some(changes)
    }

    /// The want for an entry that a revert restored.
    fn restoring_want(&self, entry: &Entry, batch: BatchId) -> (r: Want)
        ensures
            r@ == self@.restoring_want(entry@, batch),
    {
        let own = self.index.own();
        let mut others: OrdSet<NodeId> = self.members.dup();
        others.remove(&own);
        Want {
            entry: entry.dup(),
            received: entry.dup(),
            mode: if entry.kind == Kind::Dir {
                ApplyMode::Direct
            } else {
                ApplyMode::Fetch
            },
            conflict: None,
            batch,
            source: own,
            seq_high: 0,
            sources: others,
            answered: OrdSet::new(),
            excluded: OrdSet::new(),
            mismatches: 0,
            fetched: false,
            restoring: true,
            state: WantState::Wanted,
        }
    }

    /// Reverts a paused folder: discards the pending changes, restores the announced record of
    /// every path, moves the current files to the trash, and wants the restored live entries
    /// again. Denials that were not announced are undone too. `None` if the folder is not paused.
    pub fn revert(&mut self, now: Timestamp) -> (r: Option<RevertOutcome>)
        ensures
            final(self)@ == old(self)@.reverted(now),
            r.deep_view() == old(self)@.revert_result(),
    {
        let paused = match self.paused {
            Some(p) => p,
            None => {
                return None;
            },
        };
        self.paused = None;
        let reverted = self.index.revert_pending();
        self.quarantine.return_denied();
        let ghost rs = reverted.deep_view();
        assert(rs =~= old(self)@.index.reverted_list());
        let ghost start = self@;
        let mut trash: Vec<RelPath> = Vec::new();
        let mut refetch: usize = 0;
        let mut i: usize = 0;
        assert(rs.take(0) =~= Seq::empty());
        assert(trash.deep_view() =~= trashed_among(rs.take(0)));
        while i < reverted.len()
            invariant
                i <= reverted.len(),
                rs == reverted.deep_view(),
                refetch <= i,
                refetch == revived_among(rs.take(i as int)),
                trash.deep_view() == trashed_among(rs.take(i as int)),
                self@ == start.resettled(now, paused.batch, rs.take(i as int)),
            decreases reverted.len() - i,
        {
            let r = &reverted[i];
            let ghost before = trash.deep_view();
            assert(rs.take(i + 1).drop_last() =~= rs.take(i as int));
            assert(rs.take(i + 1).last() == r@);
            let was_live = match &r.current {
                Some(e) => !e.deleted,
                None => false,
            };
            if was_live {
                trash.push(r.path.dup());
                assert(trash.deep_view() =~= before.push(r.path@));
            }
            let revives = match &r.restored {
                Some(record) => !record.entry.deleted,
                None => false,
            };
            if revives {
                if let Some(record) = &r.restored {
                    refetch = refetch + 1;
                    let want = self.restoring_want(&record.entry, paused.batch);
                    self.wants.insert_restoring(want);
                }
            } else {
                self.redo_want(now, &r.path);
            }
            i = i + 1;
        }
        assert(rs.take(i as int) =~= rs);
        self.window = None;
        self.unfreeze(now);
        Some(RevertOutcome { batch: paused.batch, reverted, trash, refetch })
    }

    /// Whether a held item would pass the brake now.
    fn would_pass(&self, item: &HeldItem) -> (r: bool)
        ensures
            r == self@.would_pass(item@),
    {
        let n: usize = item.entries.len();
        let ghost m = item@.entries;
        let ghost ks = in_order(m.dom());
        let mut items: Vec<ApplyItem> = Vec::new();
        let mut i: usize = 0;
        assert(ks.take(0) =~= Seq::empty());
        assert(items.deep_view() =~= crate::batch::items_among(self@.index, m, ks.take(0)));
        while i < n
            invariant
                i <= n,
                n == item.entries@.dom().len(),
                n == ks.len(),
                m == item.entries@,
                ks == in_order(m.dom()),
                items.deep_view() == crate::batch::items_among(
                    self@.index,
                    m,
                    ks.take(i as int),
                ),
            decreases n - i,
        {
            let ghost before = items.deep_view();
            assert(ks.take(i + 1).drop_last() =~= ks.take(i as int));
            if let Some(it) = classify(&self.index, item.entries.value_at(i)).item {
                let ghost iv = it@;
                items.push(it);
                assert(items.deep_view() =~= before.push(iv));
            }
            i = i + 1;
        }
        assert(ks.take(i as int) =~= ks);
        let summary = items_summary(&self.index, &items);
        !evaluate(&self.rules, &summary, self.index.tracked_count()).is_hold()
    }

    /// New rules: holds every held item and the paused batch against them, for the status. Nothing
    /// is released by itself.
    pub fn rules_changed(&mut self, rules: Rules) -> (r: Vec<FolderStatus>)
        ensures
            final(self)@ == old(self)@.ruled(rules),
            r.deep_view() == old(self)@.ruled_result(rules),
    {
        self.rules = rules;
        let ghost s = self@;
        assert(s == (FolderView { rules, ..old(self)@ }));
        let items = self.quarantine.items();
        let ghost ks = in_order(s.quarantine.items.dom());
        let mut out: Vec<FolderStatus> = Vec::new();
        let mut i: usize = 0;
        assert(items.deep_view().len() == items.len());
        while i < items.len()
            invariant
                i <= items.len(),
                self@ == s,
                items.len() == ks.len(),
                items.deep_view() == Seq::new(ks.len(), |i: int| s.quarantine.items[ks[i]]),
                out.len() == i,
                forall|j: int| 0 <= j < i ==> (#[trigger] out@[j]).deep_view() == s.rechecks(ks)[j],
            decreases items.len() - i,
        {
            let item = items[i];
            assert(items.deep_view()[i as int] == item@);
            let would_pass = self.would_pass(item);
            out.push(FolderStatus::RulesRecheck { batch: item.batch, would_pass });
            i = i + 1;
        }
        assert(out.deep_view() =~= s.rechecks(ks));
        if let Some(paused) = self.paused {
            let (summary, verdict) = self.precheck();
            let would_pass = !verdict.is_hold();
            self.paused = Some(
                Paused {
                    batch: paused.batch,
                    since: paused.since,
                    reason: paused.reason,
                    summary,
                    would_pass,
                },
            );
            let ghost before = out.deep_view();
            out.push(FolderStatus::RulesRecheck { batch: paused.batch, would_pass });
            assert(out.deep_view() =~= before.push(
                StatusView::RulesRecheck { batch: paused.batch, would_pass },
            ));
        }
        out
    }

    /// A peer's decision on one of our batches carries what it holds of our records. If that is
    /// less than was announced, it is caught up at the next tick.
    pub fn acknowledged(&mut self, peer: NodeId, watermark: u64)
        ensures
            final(self)@ == old(self)@.acknowledged(peer, watermark),
    {
        self.acked.insert(peer, watermark);
        if watermark < self.index.announced_seq() {
            self.catchup.insert(peer);
        }
    }

    /// A peer disconnected: fetches from it are over.
    pub fn peer_gone(&mut self, peer: NodeId)
        ensures
            final(self)@ == (FolderView {
                wants: old(self)@.wants.with_states(
                    crate::want::served_among(
                        old(self)@.wants.wants,
                        old(self)@.wants.paths(),
                        peer,
                    ),
                    WantState::Wanted,
                ),
                ..old(self)@
            }),
    {
        self.wants.peer_gone(peer);
    }

    /// The host reported on a fetch. Returns the want's new state, if the report matched one, and
    /// the tombstone written if the report settled that restored content exists nowhere. A report
    /// that matches no want, such as a late one for a version since replaced, does nothing.
    pub fn fetched(
        &mut self,
        now: Timestamp,
        path: &RelPath,
        version: &Version,
        report: FetchReport,
    ) -> (r: Fetched)
        ensures
            final(self)@ == old(self)@.fetched(now, path@, version@, report),
            r@ == old(self)@.fetch_result(now, path@, version@, report),
    {
        let want = self.wants.fetched(path, version, report);
        let lost = match &want {
            Some(w) => w.restoring && report == FetchReport::NotAvailable && self.all_answered(w),
            None => false,
        };
        assert(lost == old(self)@.lost(path@, version@, report));
        if !lost {
            let state: Option<WantState> = match &want {
                Some(w) => Some(w.state),
                None => None,
            };
            return Fetched { state, unrecoverable: None };
        }
        self.wants.remove(path);
        let change = self.index.observe_absent_unrecoverable(path, now.as_unix_nanos());
        if change.is_some() {
            self.touched(now);
        }
        Fetched { state: None, unrecoverable: change }
    }

    /// Whether every other member has answered that it does not have what a want is after.
    fn all_answered(&self, want: &Want) -> (r: bool)
        ensures
            r == (forall|m: NodeId| #[trigger]
                self@.members.contains(m) ==> m == self@.index.own || want@.answered.contains(m)),
    {
        let own = self.index.own();
        let n: usize = self.members.len();
        let ghost ms = in_order(self@.members);
        let mut i: usize = 0;
        proof {
            lemma_order_facts(self@.members);
        }
        while i < n
            invariant
                i <= n,
                n == self.members@.len(),
                n == ms.len(),
                self@.members == self.members@,
                own == self@.index.own,
                ms == in_order(self@.members),
                forall|m: NodeId| #[trigger] self@.members.contains(m) ==> ms.contains(m),
                forall|j: int|
                    0 <= j < i ==> (#[trigger] ms[j]) == own || want@.answered.contains(ms[j]),
            decreases n - i,
        {
            let m: NodeId = *self.members.at(i);
            if m != own && !want.answered.contains(&m) {
                return false;
            }
            i = i + 1;
        }
        proof {
            assert forall|m: NodeId| #[trigger] self@.members.contains(m) implies m
                == self@.index.own || want@.answered.contains(m) by {
                assert(ms.contains(m));
                let j = choose|j: int| 0 <= j < ms.len() && ms[j] == m;
                assert(ms[j] == own || want@.answered.contains(ms[j]));
            }
        }
        true
    }

    /// The host reported bytes arriving for a fetch.
    pub fn progress(&mut self, now: Timestamp, path: &RelPath, version: &Version)
        ensures
            final(self)@ == (FolderView {
                wants: old(self)@.wants.progressed(now, path@, version@),
                ..old(self)@
            }),
    {
        self.wants.progress(now, path, version);
    }

    /// A stored want comes back after a restart.
    pub fn restore_want(&mut self, want: Want)
        ensures
            final(self)@ == (FolderView { wants: old(self)@.wants.restored(want@), ..old(self)@ }),
    {
        self.wants.restore(want);
    }

    /// The process restarted with this state: every want that the host was busy with is wanted
    /// again, the open scan is gone, and peers will announce themselves afresh.
    pub fn restarted(&mut self)
        ensures
            final(self)@ == old(self)@.restarted(),
    {
        self.wants.restarted();
        self.scan = None;
        self.catchup = OrdSet::new();
        self.window = None;
    }

    /// Keeps what a want was after waiting for the next observation of its path.
    fn defer_changed_underneath(&mut self, want: &Want)
        ensures
            final(self)@ == old(self)@.postponing(want@),
    {
        self.defer(
            want.path(),
            Deferred {
                entry: want.entry.dup(),
                batch: want.batch,
                source: want.source,
                seq_high: want.seq_high,
                reason: DeferredReason::ChangedUnderneath,
            },
        );
    }

    /// Takes a committed remote entry into the index and opens the window so that it is announced.
    /// `None` if the record does not let it.
    pub fn adopt(&mut self, now: Timestamp, entry: Entry) -> (r: Option<IndexRecord>)
        ensures
            final(self)@ == old(self)@.adopting(now, entry@),
            r is Some == old(self)@.index.adoptable(entry@),
            r is Some ==> (r->0)@ == (RecordView {
                entry: entry@,
                seq: crate::index::next_number(old(self)@.index.seq),
            }),
    {
        let record = self.index.adopt(entry);
        if record.is_some() {
            self.touched(now);
        }
        record
    }

    /// The step that commits a want.
    fn commit_step(&self, want: &Want) -> (r: HostStep)
        ensures
            r@ == commit_step(want@, self@.expected(want@.entry.path)),
    {
        let path = want.path().dup();
        let expected = self.expected(&path);
        let displace = match &want.conflict {
            Some(copy) => Displace::ConflictCopy(copy.path.dup()),
            None => Displace::Trash,
        };
        if want.mode == ApplyMode::MetadataOnly {
            HostStep::SetMeta {
                path,
                mtime_ns: want.entry.mtime_ns,
                executable: want.entry.executable,
            }
        } else if want.entry.deleted {
            HostStep::Remove { path, expected, displace }
        } else {
            HostStep::Write { path, entry: want.entry.dup(), expected, displace }
        }
    }

    /// Decides the next steps for the want-list and adopts every want that changes nothing on
    /// disk. Returns the steps and the records adopted.
    pub fn dispatch(&mut self, now: Timestamp, peers: &OrdMap<NodeId, Tier>) -> (r: (
        Vec<HostStep>,
        Vec<IndexRecord>,
    ))
        ensures
            (WithSteps {
                folder: final(self)@,
                host: r.0.deep_view(),
                adopted: r.1.deep_view(),
            }) == old(self)@.dispatched(now, peers@),
    {
        let steps = self.wants.dispatch(now, &self.rules, peers);
        let ghost ss = steps.deep_view();
        let ghost w0 = WithSteps { folder: self@, host: Seq::empty(), adopted: Seq::empty() };
        let mut host: Vec<HostStep> = Vec::new();
        let mut adopted: Vec<IndexRecord> = Vec::new();
        let mut i: usize = 0;
        assert(ss.take(0) =~= Seq::empty());
        assert(host.deep_view() =~= Seq::empty());
        assert(adopted.deep_view() =~= Seq::empty());
        while i < steps.len()
            invariant
                i <= steps.len(),
                ss == steps.deep_view(),
                (WithSteps {
                    folder: self@,
                    host: host.deep_view(),
                    adopted: adopted.deep_view(),
                }) == w0.take_all(now, ss.take(i as int)),
            decreases steps.len() - i,
        {
            let ghost before = host.deep_view();
            let ghost before_adopted = adopted.deep_view();
            assert(ss.take(i + 1).drop_last() =~= ss.take(i as int));
            assert(ss.take(i + 1).last() == steps@[i as int]@);
            match &steps[i] {
                WantStep::Fetch { path, version, from } => {
                    let (hash, size): (ContentHash, u64) = match self.wants.get(path) {
                        Some(w) => (w.entry.hash, w.entry.size),
                        None => (ContentHash::empty(), 0),
                    };
                    let step = HostStep::Fetch {
                        path: path.dup(),
                        version: version.dup(),
                        hash,
                        size,
                        from: *from,
                    };
                    let ghost sv = step@;
                    host.push(step);
                    assert(host.deep_view() =~= before.push(sv));
                },
                WantStep::Commit(want) => {
                    let step = self.commit_step(want);
                    let ghost sv = step@;
                    host.push(step);
                    assert(host.deep_view() =~= before.push(sv));
                },
                WantStep::Adopt(want) => {
                    let path = want.path().dup();
                    match self.adopt(now, want.entry.dup()) {
                        Some(record) => {
                            let ghost rv = record@;
                            adopted.push(record);
                            assert(adopted.deep_view() =~= before_adopted.push(rv));
                        },
                        None => {
                            self.defer_changed_underneath(want);
                        },
                    }
                    self.reconsider(now, &path, DeferredReason::ChangedUnderneath);
                },
            }
            i = i + 1;
        }
        assert(ss.take(i as int) =~= ss);
        (host, adopted)
    }

    /// Want-list changes since the last call.
    pub fn want_changes(&mut self) -> (r: Vec<(RelPath, Option<Want>)>)
        ensures
            final(self)@ == (FolderView {
                wants: WantListView { changed: Seq::empty(), ..old(self)@.wants },
                ..old(self)@
            }),
            r.deep_view() == Seq::new(
                crate::want::distinct(old(self)@.wants.changed).len(),
                |i: int|
                    (
                        crate::want::distinct(old(self)@.wants.changed)[i],
                        old(self)@.wants.get(crate::want::distinct(old(self)@.wants.changed)[i]),
                    ),
            ),
    {
        self.wants.drain_changes()
    }

    /// The host put a want in place, or could not. In the first case the index adopts the entry;
    /// if a conflict copy was kept, it is recorded as this machine's local change. In the second
    /// the entry waits until the path is observed again. Either way the want ends. Returns every
    /// record written.
    pub fn applied(
        &mut self,
        now: Timestamp,
        path: &RelPath,
        version: &Version,
        outcome: ApplyOutcome,
    ) -> (r: Vec<IndexRecord>)
        ensures
            (WithRecords { folder: final(self)@, records: r.deep_view() }) == old(self)@.applied(
                now,
                path@,
                version@,
                outcome,
            ),
    {
        let mut written: Vec<IndexRecord> = Vec::new();
        assert(written.deep_view() =~= Seq::empty());
        let want = match self.wants.get(path) {
            Some(w) => {
                if !w.version().same(version) {
                    return written;
                }
                w.dup()
            },
            None => {
                return written;
            },
        };
        self.wants.remove(path);
        match outcome {
            ApplyOutcome::Done => {
                match self.adopt(now, want.entry.dup()) {
                    None => {
                        self.defer_changed_underneath(&want);
                        return written;
                    },
                    Some(record) => {
                        let ghost rv = record@;
                        written.push(record);
                        assert(written.deep_view() =~= seq![rv]);
                    },
                }
                if let Some(copy) = &want.conflict {
                    let change = self.index.record_conflict_copy(copy.path.dup(), &copy.loser);
                    self.touched(now);
                    let ghost before = written.deep_view();
                    let ghost cv = change.record@;
                    written.push(change.record);
                    assert(written.deep_view() =~= before.push(cv));
                    assert(written.deep_view() =~= seq![before[0], cv]);
                    self.reclassify_want(now, &copy.path);
                }
                self.reconsider(now, path, DeferredReason::ChangedUnderneath);
                written
            },
            ApplyOutcome::ChangedUnderneath => {
                self.defer_changed_underneath(&want);
                written
            },
        }
    }
}

/// The paths of some entries, in order.
fn path_list(entries: &OrdMap<RelPath, Entry>) -> (r: Vec<RelPath>)
    ensures
        r.deep_view() == in_order(entries@.dom()),
{
    let mut out: Vec<RelPath> = Vec::new();
    let n: usize = entries.len();
    let mut i: usize = 0;
    while i < n
        invariant
            i <= n,
            n == entries@.dom().len(),
            n == in_order(entries@.dom()).len(),
            out.len() == i,
            forall|j: int|
                0 <= j < i ==> (#[trigger] out@[j]).deep_view() == in_order(entries@.dom())[j],
        decreases n - i,
    {
        out.push(entries.key_at(i).dup());
        i = i + 1;
    }
    assert(out.deep_view() =~= in_order(entries@.dom()));
    out
}

} // verus!
