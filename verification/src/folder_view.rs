//! What a folder's state stands for, and how each operation changes it.

use crate::batch::{
    apply_set_of, classified, formed, last_by_path, summary_of, ApplyMode, ApplySetView, BatchView,
    DecisionView, ItemView, Summary,
};
use crate::brake::{verdict, weight, HoldReason, Verdict};
use crate::entry::{ContentHash, EntryView, Kind};
use crate::folder::{ApplyOutcome, DeferredReason, Expected, Paused, ScanState, Window};
use crate::id::{BatchId, FolderId, NodeId};
use crate::index::{live_among, ChangeKind, ChangeView, IndexView, RecordView, RevertedView};
use crate::order::in_order;
use crate::quarantine::{first_match, max_stamp, versions_in, HeldItemView, QuarantineView};
use crate::rules::Rules;
use crate::time::Timestamp;
use crate::version::{relation, Relation, Vector};
use crate::want::{
    deadline_among, FetchReport, Tier, WantListView, WantState, WantStepView, WantView,
};
use vstd::prelude::*;

verus! {

// ---- what the types stand for -----------------------------------------------

/// What a waiting entry stands for.
pub struct DeferredView {
    pub entry: EntryView,
    pub batch: BatchId,
    pub source: NodeId,
    pub seq_high: u64,
    pub reason: DeferredReason,
}

/// What a place for a displaced file stands for.
pub enum DisplaceView {
    Trash,
    ConflictCopy(Seq<u8>),
}

/// What a status stands for.
pub enum StatusView {
    UnknownFolder,
    AlreadyJoined,
    UnchangedUnknownPath { path: Seq<u8> },
    ScanNotOpen,
    DuplicatePaths { batch: BatchId, count: nat },
    WinnerFallback { count: u64 },
    Paused { batch: BatchId, reason: HoldReason, summary: Summary },
    PausedRecheck { batch: BatchId, would_pass: bool, summary: Summary },
    Held { batch: BatchId, source: NodeId, reason: HoldReason, summary: Summary, paths: nat },
    JoinedHeld { batch: BatchId, count: nat },
    Released { batch: BatchId, items: nat },
    Unpaused { batch: BatchId },
    Denied { batch: BatchId, paths: nat },
    Reverted { batch: BatchId, trashed: nat, refetch: nat },
    NotPaused,
    UnknownBatch { batch: BatchId },
    RulesRecheck { batch: BatchId, would_pass: bool },
    GaveUp { path: Seq<u8> },
    Unrecoverable { path: Seq<u8> },
    Stalled { path: Seq<u8> },
}

/// What handling a scan report produced.
pub struct ScannedView {
    pub change: Option<ChangeView>,
    pub status: Option<StatusView>,
}

/// What a due tick did.
pub enum TickedView {
    Nothing,
    Sent(Seq<BatchView>),
    Paused { first: bool, snapshot: Seq<BatchView>, status: StatusView },
}

/// What receiving a batch produced.
pub struct ReceivedView {
    pub set: ApplySetView,
    pub decision: DecisionView,
    pub summary: Summary,
    pub joined: nat,
    pub frozen: nat,
    pub already_wanted: nat,
    pub held: Option<HoldReason>,
}

/// What a fetch report did.
pub struct FetchedView {
    pub state: Option<WantState>,
    pub unrecoverable: Option<ChangeView>,
}

/// What an approval did.
pub enum ApprovedView {
    Released(Option<ApplySetView>),
    Sent(Seq<BatchView>),
    Unknown,
}

/// What a revert did.
pub struct RevertView {
    pub batch: BatchId,
    pub reverted: Seq<RevertedView>,
    pub trash: Seq<Seq<u8>>,
    pub refetch: nat,
}

/// What a step for the host stands for.
pub enum HostStepView {
    Fetch { path: Seq<u8>, version: Vector, hash: ContentHash, size: u64, from: NodeId },
    Write {
        path: Seq<u8>,
        entry: EntryView,
        expected: Option<Expected>,
        displace: DisplaceView,
    },
    Remove { path: Seq<u8>, expected: Option<Expected>, displace: DisplaceView },
    SetMeta { path: Seq<u8>, mtime_ns: i64, executable: bool },
}

/// An item on its way into the want-list, with the entry as it was received and the batch it came
/// in.
pub struct CandidateView {
    pub item: ItemView,
    pub raw: EntryView,
    pub batch: BatchId,
    pub source: NodeId,
    pub seq_high: u64,
}

/// What a folder's state stands for.
pub struct FolderView {
    pub id: FolderId,
    pub rules: Rules,
    pub members: Set<NodeId>,
    pub index: IndexView,
    pub window: Option<Window>,
    /// Paths reported since the scan started, while one is open.
    pub scan: Option<Set<Seq<u8>>>,
    pub wants: WantListView,
    /// What each peer has acknowledged.
    pub acked: Map<NodeId, u64>,
    /// Peers that await catch-up.
    pub catchup: Set<NodeId>,
    /// Entries waiting to be classified again, in the order of arrival at each path.
    pub deferred: Map<Seq<u8>, Seq<DeferredView>>,
    pub winner_fallbacks: u64,
    pub quarantine: QuarantineView,
    pub paused: Option<Paused>,
    /// Statuses raised since they were last taken.
    pub statuses: Seq<StatusView>,
}

// ---- helpers ----------------------------------------------------------------

/// A count that stops at the end of its range.
pub open spec fn plus_count(a: u64, n: nat) -> u64 {
    if a + n > u64::MAX {
        u64::MAX
    } else {
        (a + n) as u64
    }
}

/// The entries of a list that wait for a reason.
pub open spec fn taken(list: Seq<DeferredView>, reason: DeferredReason) -> Seq<DeferredView>
    decreases list.len(),
{
    if list.len() == 0 {
        Seq::empty()
    } else if list.last().reason == reason {
        taken(list.drop_last(), reason).push(list.last())
    } else {
        taken(list.drop_last(), reason)
    }
}

/// The entries of a list that wait for another reason.
pub open spec fn kept(list: Seq<DeferredView>, reason: DeferredReason) -> Seq<DeferredView>
    decreases list.len(),
{
    if list.len() == 0 {
        Seq::empty()
    } else if list.last().reason == reason {
        kept(list.drop_last(), reason)
    } else {
        kept(list.drop_last(), reason).push(list.last())
    }
}

/// Every entry at some paths that waits for the folder to unpause.
pub open spec fn frozen_among(
    deferred: Map<Seq<u8>, Seq<DeferredView>>,
    ks: Seq<Seq<u8>>,
) -> Seq<DeferredView>
    decreases ks.len(),
{
    if ks.len() == 0 {
        Seq::empty()
    } else {
        frozen_among(deferred, ks.drop_last()) + taken(
            deferred[ks.last()],
            DeferredReason::Frozen,
        )
    }
}

/// What waits once the entries that wait for the folder to unpause are gone.
pub open spec fn thawed(deferred: Map<Seq<u8>, Seq<DeferredView>>) -> Map<
    Seq<u8>,
    Seq<DeferredView>,
> {
    Map::new(
        |p: Seq<u8>|
            deferred.contains_key(p) && kept(deferred[p], DeferredReason::Frozen).len() > 0,
        |p: Seq<u8>| kept(deferred[p], DeferredReason::Frozen),
    )
}

/// The candidates that waiting entries become.
pub open spec fn candidates_of(s: IndexView, list: Seq<DeferredView>) -> Seq<CandidateView>
    decreases list.len(),
{
    if list.len() == 0 {
        Seq::empty()
    } else {
        let d = list.last();
        match classified(s, d.entry).item {
            Some(item) => candidates_of(s, list.drop_last()).push(
                CandidateView {
                    item,
                    raw: d.entry,
                    batch: d.batch,
                    source: d.source,
                    seq_high: d.seq_high,
                },
            ),
            None => candidates_of(s, list.drop_last()),
        }
    }
}

/// How many waiting entries the last winner rule decides.
pub open spec fn fallbacks_of(s: IndexView, list: Seq<DeferredView>) -> nat
    decreases list.len(),
{
    if list.len() == 0 {
        0
    } else {
        fallbacks_of(s, list.drop_last()) + if classified(s, list.last().entry).fallback {
            1nat
        } else {
            0nat
        }
    }
}

/// The positions of a list by path; equal paths keep their order.
pub open spec fn path_keys(pairs: Seq<(ItemView, EntryView)>) -> Set<(Seq<u8>, u64)> {
    Set::new(
        |k: (Seq<u8>, u64)| k.1 < pairs.len() && pairs[k.1 as int].0.entry.path == k.0,
    )
}

/// A list in path order.
pub open spec fn by_path(pairs: Seq<(ItemView, EntryView)>) -> Seq<(ItemView, EntryView)> {
    let ks = in_order(path_keys(pairs));
    Seq::new(ks.len(), |i: int| pairs[ks[i].1 as int])
}

/// The items of a list.
pub open spec fn items_of(pairs: Seq<(ItemView, EntryView)>) -> Seq<ItemView> {
    Seq::new(pairs.len(), |i: int| pairs[i].0)
}

/// The entries of a list as received, by path.
pub open spec fn raws_of(pairs: Seq<(ItemView, EntryView)>) -> Map<Seq<u8>, EntryView>
    decreases pairs.len(),
{
    if pairs.len() == 0 {
        Map::empty()
    } else {
        raws_of(pairs.drop_last()).insert(pairs.last().0.entry.path, pairs.last().1)
    }
}

/// Items that were grouped by the batch they came in.
pub type Groups = Map<((BatchId, NodeId), u64), Seq<(ItemView, EntryView)>>;

/// The statuses of items that joined.
pub open spec fn joined_statuses(joined: Map<BatchId, usize>, ks: Seq<BatchId>) -> Seq<StatusView>
    decreases ks.len(),
{
    if ks.len() == 0 {
        Seq::empty()
    } else {
        joined_statuses(joined, ks.drop_last()).push(
            StatusView::JoinedHeld { batch: ks.last(), count: joined[ks.last()] as nat },
        )
    }
}

/// Candidates being sorted out.
pub struct Sorting {
    pub wants: WantListView,
    pub quarantine: QuarantineView,
    pub groups: Groups,
    pub joined: Map<BatchId, usize>,
}

impl Sorting {
    /// After an entry joined an item.
    pub open spec fn join(self, batch: BatchId, raw: EntryView) -> Sorting {
        Sorting {
            quarantine: self.quarantine.joined(batch, raw),
            joined: self.joined.insert(
                batch,
                ((if self.joined.contains_key(batch) {
                    self.joined[batch]
                } else {
                    0
                }) + 1) as usize,
            ),
            ..self
        }
    }

    /// After one candidate was sorted out: a version that is wanted already only names a source;
    /// one that is quarantined, or dominates a quarantined one, joins its item; one whose own
    /// batch is under review joins it too; the rest is grouped by batch.
    pub open spec fn sort(self, c: CandidateView, brake: bool) -> Sorting {
        let path = c.item.entry.path;
        let version = c.item.entry.version;
        if self.wants.wants.contains_key(path) && (version == self.wants.wants[path].entry.version
            || relation(self.wants.wants[path].entry.version, version) == Relation::Dominates) {
            Sorting { wants: self.wants.announced(path, version, c.source), ..self }
        } else {
            match first_match(self.quarantine.list(c.raw.path), c.raw.version) {
                Some(held) => self.join(held, c.raw),
                None => if brake && self.quarantine.items.contains_key(c.batch) {
                    self.join(c.batch, c.raw)
                } else {
                    let k = ((c.batch, c.source), c.seq_high);
                    Sorting {
                        groups: self.groups.insert(
                            k,
                            (if self.groups.contains_key(k) {
                                self.groups[k]
                            } else {
                                Seq::empty()
                            }).push((c.item, c.raw)),
                        ),
                        ..self
                    }
                },
            }
        }
    }

    /// After some candidates were sorted out, in turn.
    pub open spec fn sort_all(self, cs: Seq<CandidateView>, brake: bool) -> Sorting
        decreases cs.len(),
    {
        if cs.len() == 0 {
            self
        } else {
            self.sort_all(cs.drop_last(), brake).sort(cs.last(), brake)
        }
    }
}

/// A folder's state and the changes that were reported.
pub struct WithChanges {
    pub folder: FolderView,
    pub changes: Seq<ChangeView>,
}

/// A folder's state, steps for the host and records that were adopted.
pub struct WithSteps {
    pub folder: FolderView,
    pub host: Seq<HostStepView>,
    pub adopted: Seq<RecordView>,
}

/// Items of a received batch being sorted out.
pub struct Receiving {
    pub folder: FolderView,
    pub kept: Seq<ItemView>,
    pub joined: nat,
    pub frozen: nat,
    pub already_wanted: nat,
}

impl FolderView {
    /// A folder that was just joined.
    pub open spec fn initial(
        id: FolderId,
        rules: Rules,
        members: Set<NodeId>,
        own: NodeId,
        host: Seq<u8>,
    ) -> FolderView {
        FolderView {
            id,
            rules,
            members,
            index: IndexView::initial(own, host),
            window: None,
            scan: None,
            wants: WantListView { wants: Map::empty(), changed: Seq::empty() },
            acked: Map::empty(),
            catchup: Set::empty(),
            deferred: Map::empty(),
            winner_fallbacks: 0,
            quarantine: QuarantineView::initial(),
            paused: None,
            statuses: Seq::empty(),
        }
    }

    /// What waits at a path.
    pub open spec fn waiting(self, path: Seq<u8>) -> Seq<DeferredView> {
        if self.deferred.contains_key(path) {
            self.deferred[path]
        } else {
            Seq::empty()
        }
    }

    /// Whether a path has a want in a short-lived state.
    pub open spec fn in_flight(self, path: Seq<u8>) -> bool {
        self.wants.wants.contains_key(path) && self.wants.wants[path].state.short_lived()
    }

    /// Whether a path has a want made by a revert.
    pub open spec fn restoring(self, path: Seq<u8>) -> bool {
        self.wants.wants.contains_key(path) && self.wants.wants[path].restoring
    }

    /// When a tick is next needed: for the window, or for the earliest deadline of a want.
    pub open spec fn due(self) -> Option<Timestamp> {
        let d = deadline_among(self.wants.wants, self.wants.paths());
        match self.window {
            Some(w) => match d {
                Some(t) => Some(
                    if w.end().0 <= t.0 {
                        w.end()
                    } else {
                        t
                    },
                ),
                None => Some(w.end()),
            },
            None => d,
        }
    }

    /// Whether the window is open and due.
    pub open spec fn is_due(self, now: Timestamp) -> bool {
        match self.window {
            Some(w) => w.end().0 <= now.0,
            None => false,
        }
    }

    /// The folder after something was written.
    pub open spec fn touched(self, now: Timestamp) -> FolderView {
        FolderView {
            window: Some(
                match self.window {
                    None => Window { opened: now, last: now },
                    Some(w) => Window {
                        opened: w.opened,
                        last: if w.last.0 >= now.0 {
                            w.last
                        } else {
                            now
                        },
                    },
                },
            ),
            ..self
        }
    }

    /// The folder with an entry waiting at a path.
    pub open spec fn deferring(self, path: Seq<u8>, d: DeferredView) -> FolderView {
        FolderView { deferred: self.deferred.insert(path, self.waiting(path).push(d)), ..self }
    }

    /// The folder with an item wanted, or waiting if another version is wanted at its path.
    pub open spec fn wanting(
        self,
        item: ItemView,
        raw: EntryView,
        batch: BatchId,
        source: NodeId,
        seq_high: u64,
    ) -> FolderView {
        let s = FolderView {
            wants: self.wants.inserted(item, raw, batch, source, seq_high),
            ..self
        };
        if self.wants.refuses(item) {
            s.deferring(
                item.entry.path,
                DeferredView {
                    entry: item.entry,
                    batch,
                    source,
                    seq_high,
                    reason: DeferredReason::ChangedUnderneath,
                },
            )
        } else {
            s
        }
    }

    /// The folder with some items wanted, in turn.
    pub open spec fn wanting_all(
        self,
        pairs: Seq<(ItemView, EntryView)>,
        batch: BatchId,
        source: NodeId,
        seq_high: u64,
    ) -> FolderView
        decreases pairs.len(),
    {
        if pairs.len() == 0 {
            self
        } else {
            self.wanting_all(pairs.drop_last(), batch, source, seq_high).wanting(
                pairs.last().0,
                pairs.last().1,
                batch,
                source,
                seq_high,
            )
        }
    }

    /// The folder after the items of one batch met the brake: held under the batch, or wanted.
    #[verifier::opaque]
    pub open spec fn admit_group(
        self,
        now: Timestamp,
        k: ((BatchId, NodeId), u64),
        unsorted: Seq<(ItemView, EntryView)>,
        brake: bool,
    ) -> FolderView {
        let pairs = by_path(unsorted);
        let items = items_of(pairs);
        let raws = raws_of(pairs);
        let batch = k.0.0;
        let summary = weight(self.index, items);
        let v = if brake {
            verdict(self.rules, summary, self.index.tracked_count() as usize)
        } else {
            Verdict::Pass
        };
        match v {
            Verdict::Hold(reason) => if self.quarantine.items.contains_key(batch) {
                FolderView {
                    quarantine: self.quarantine.joined_all(raws, in_order(raws.dom()), batch),
                    statuses: self.statuses.push(
                        StatusView::JoinedHeld { batch, count: items.len() },
                    ),
                    ..self
                }
            } else {
                FolderView {
                    quarantine: self.quarantine.held(
                        HeldItemView {
                            batch,
                            source: k.0.1,
                            seq_high: k.1,
                            held_at: now,
                            reason,
                            entries: raws,
                        },
                    ),
                    statuses: self.statuses.push(
                        StatusView::Held {
                            batch,
                            source: k.0.1,
                            reason,
                            summary,
                            paths: items.len(),
                        },
                    ),
                    ..self
                }
            },
            Verdict::Pass => self.wanting_all(pairs, batch, k.0.1, k.1),
        }
    }

    /// The folder after the items of some batches met the brake, in turn.
    pub open spec fn admit_groups(
        self,
        now: Timestamp,
        groups: Groups,
        ks: Seq<((BatchId, NodeId), u64)>,
        brake: bool,
    ) -> FolderView
        decreases ks.len(),
    {
        if ks.len() == 0 {
            self
        } else {
            self.admit_groups(now, groups, ks.drop_last(), brake).admit_group(
                now,
                ks.last(),
                groups[ks.last()],
                brake,
            )
        }
    }

    /// How candidates are sorted out.
    pub open spec fn sorted_out(self, cs: Seq<CandidateView>, brake: bool) -> Sorting {
        Sorting {
            wants: self.wants,
            quarantine: self.quarantine,
            groups: Map::empty(),
            joined: Map::empty(),
        }.sort_all(cs, brake)
    }

    /// The folder after candidates were admitted: those that neither name a source only nor join
    /// a held item meet the brake, one apply set for each batch.
    #[verifier::opaque]
    pub open spec fn let_in(
        self,
        now: Timestamp,
        cs: Seq<CandidateView>,
        brake: bool,
    ) -> FolderView {
        let t = self.sorted_out(cs, brake);
        FolderView {
            wants: t.wants,
            quarantine: t.quarantine,
            statuses: self.statuses + joined_statuses(t.joined, in_order(t.joined.dom())),
            ..self
        }.admit_groups(now, t.groups, in_order(t.groups.dom()), brake)
    }

    /// The folder with one more conflict decided by the last winner rule, or not.
    pub open spec fn counting(self, n: nat) -> FolderView {
        FolderView { winner_fallbacks: plus_count(self.winner_fallbacks, n), ..self }
    }

    /// The folder with some sources named for a version.
    pub open spec fn naming(self, path: Seq<u8>, version: Vector, by: Seq<NodeId>) -> FolderView
        decreases by.len(),
    {
        if by.len() == 0 {
            self
        } else {
            let s = self.naming(path, version, by.drop_last());
            FolderView { wants: s.wants.announced(path, version, by.last()), ..s }
        }
    }

    /// The folder after a want was replaced by what an entry now comes to.
    #[verifier::opaque]
    pub open spec fn rederived(
        self,
        now: Timestamp,
        path: Seq<u8>,
        old: WantView,
        entry: EntryView,
    ) -> FolderView {
        let c = classified(self.index, entry);
        let s = FolderView { wants: self.wants.removed(path), ..self }.counting(
            if c.fallback {
                1
            } else {
                0
            },
        );
        match c.item {
            None => s,
            Some(item) => {
                let t = s.let_in(
                    now,
                    seq![
                        CandidateView {
                            item,
                            raw: old.received,
                            batch: old.batch,
                            source: old.source,
                            seq_high: old.seq_high,
                        },
                    ],
                    true,
                );
                if item.entry.version == old.entry.version {
                    t.naming(path, old.entry.version, in_order(old.sources))
                } else {
                    t
                }
            },
        }
    }

    /// The folder after the index changed under a want: what is wanted is classified against the
    /// new record.
    pub open spec fn reclassified(self, now: Timestamp, path: Seq<u8>) -> FolderView {
        match self.wants.get(path) {
            None => self,
            Some(old) => self.rederived(now, path, old, old.entry),
        }
    }

    /// The folder after a revert changed the index under a want: what was received is classified
    /// against the record that was put back.
    pub open spec fn redone(self, now: Timestamp, path: Seq<u8>) -> FolderView {
        match self.wants.get(path) {
            None => self,
            Some(old) => self.rederived(now, path, old, old.received),
        }
    }

    /// The folder after waiting entries were classified and admitted.
    pub open spec fn admit_waiting(self, now: Timestamp, list: Seq<DeferredView>) -> FolderView {
        self.counting(fallbacks_of(self.index, list)).let_in(
            now,
            candidates_of(self.index, list),
            true,
        )
    }

    /// The folder after the entries at a path that wait for a reason were classified again.
    #[verifier::opaque]
    pub open spec fn reconsidered(
        self,
        now: Timestamp,
        path: Seq<u8>,
        reason: DeferredReason,
    ) -> FolderView {
        if !self.deferred.contains_key(path) {
            self
        } else {
            let list = self.deferred[path];
            let rest = kept(list, reason);
            FolderView {
                deferred: if rest.len() > 0 {
                    self.deferred.insert(path, rest)
                } else {
                    self.deferred.remove(path)
                },
                ..self
            }.admit_waiting(now, taken(list, reason))
        }
    }

    /// The folder after every entry that waited for it to unpause was classified again.
    #[verifier::opaque]
    pub open spec fn unfrozen(self, now: Timestamp) -> FolderView {
        FolderView { deferred: thawed(self.deferred), ..self }.admit_waiting(
            now,
            frozen_among(self.deferred, in_order(self.deferred.dom())),
        )
    }

    /// The folder with a path marked as reported.
    pub open spec fn seen(self, path: Seq<u8>) -> FolderView {
        FolderView {
            scan: match self.scan {
                Some(paths) => Some(paths.insert(path)),
                None => None,
            },
            ..self
        }
    }

    /// Whether a report is ignored: the path is in flight, or a revert moved the file away.
    pub open spec fn ignores(self, path: Seq<u8>, state: ScanState) -> bool {
        self.in_flight(path) || (state is Absent && self.restoring(path))
    }

    /// The change that a report makes to the index.
    pub open spec fn scan_change(self, now: Timestamp, path: Seq<u8>, state: ScanState) -> Option<
        ChangeView,
    > {
        match state {
            ScanState::Observed(o) => self.index.observe_change(path, o),
            ScanState::Absent => self.index.absent_change(path, now.0),
            ScanState::Unchanged => None,
        }
    }

    /// The index after a report.
    pub open spec fn scan_index(self, now: Timestamp, path: Seq<u8>, state: ScanState) -> IndexView {
        match state {
            ScanState::Observed(o) => self.index.observe(path, o),
            ScanState::Absent => self.index.observe_absent(path, now.0),
            ScanState::Unchanged => self.index,
        }
    }

    /// The folder after a report on a path.
    pub open spec fn scanned(self, now: Timestamp, path: Seq<u8>, state: ScanState) -> FolderView {
        let s = self.seen(path);
        if self.ignores(path, state) || (state is Unchanged && self.index.live(path) is None) {
            s
        } else {
            let t = FolderView { index: self.scan_index(now, path, state), ..s };
            let u = if self.scan_change(now, path, state) is Some {
                t.touched(now).reclassified(now, path)
            } else {
                t
            };
            u.reconsidered(now, path, DeferredReason::ChangedUnderneath)
        }
    }

    /// What a report on a path produced.
    pub open spec fn scan_result(self, now: Timestamp, path: Seq<u8>, state: ScanState) -> ScannedView {
        if self.ignores(path, state) {
            ScannedView { change: None, status: None }
        } else if state is Unchanged && self.index.live(path) is None {
            ScannedView {
                change: None,
                status: Some(StatusView::UnchangedUnknownPath { path }),
            }
        } else {
            ScannedView { change: self.scan_change(now, path, state), status: None }
        }
    }

    /// The paths of some records that a scan did not report and that may be gone.
    pub open spec fn gone_among(self, records: Seq<RecordView>, seen: Set<Seq<u8>>) -> Seq<Seq<u8>>
        decreases records.len(),
    {
        if records.len() == 0 {
            Seq::empty()
        } else {
            let p = records.last().entry.path;
            let rest = self.gone_among(records.drop_last(), seen);
            if !seen.contains(p) && !self.in_flight(p) && !self.restoring(p) {
                rest.push(p)
            } else {
                rest
            }
        }
    }

    /// The paths among some where an entry waits that no scan will report.
    pub open spec fn unseen_among(self, ks: Seq<Seq<u8>>, seen: Set<Seq<u8>>) -> Seq<Seq<u8>>
        decreases ks.len(),
    {
        if ks.len() == 0 {
            Seq::empty()
        } else {
            let rest = self.unseen_among(ks.drop_last(), seen);
            if !seen.contains(ks.last()) && self.index.live(ks.last()) is None && !self.in_flight(
                ks.last(),
            ) {
                rest.push(ks.last())
            } else {
                rest
            }
        }
    }

    /// The folder after the entries at some paths were classified again.
    pub open spec fn reconsidered_all(self, now: Timestamp, ps: Seq<Seq<u8>>) -> FolderView
        decreases ps.len(),
    {
        if ps.len() == 0 {
            self
        } else {
            self.reconsidered_all(now, ps.drop_last()).reconsidered(
                now,
                ps.last(),
                DeferredReason::ChangedUnderneath,
            )
        }
    }
}

impl WithChanges {
    /// After a path was found gone.
    pub open spec fn vanished(self, now: Timestamp, path: Seq<u8>) -> WithChanges {
        let s = self.folder;
        match s.index.absent_change(path, now.0) {
            Some(change) => WithChanges {
                folder: FolderView {
                    index: s.index.observe_absent(path, now.0),
                    ..s
                }.reclassified(now, path).reconsidered(
                    now,
                    path,
                    DeferredReason::ChangedUnderneath,
                ),
                changes: self.changes.push(change),
            },
            None => WithChanges {
                folder: s.reconsidered(now, path, DeferredReason::ChangedUnderneath),
                ..self
            },
        }
    }

    /// After some paths were found gone.
    pub open spec fn vanished_all(self, now: Timestamp, ps: Seq<Seq<u8>>) -> WithChanges
        decreases ps.len(),
    {
        if ps.len() == 0 {
            self
        } else {
            self.vanished_all(now, ps.drop_last()).vanished(now, ps.last())
        }
    }

    /// After a path was bumped over what is quarantined there.
    pub open spec fn bumped(self, now: Timestamp, path: Seq<u8>) -> WithChanges {
        let s = self.folder;
        let list = s.quarantine.list(path);
        let entry = s.index.bumped_entry(path, versions_in(list), max_stamp(list), now.0);
        WithChanges {
            folder: FolderView { index: s.index.written(entry), ..s },
            changes: self.changes.push(s.index.change(entry)),
        }
    }

    /// After some paths were bumped.
    pub open spec fn bumped_all(self, now: Timestamp, ps: Seq<Seq<u8>>) -> WithChanges
        decreases ps.len(),
    {
        if ps.len() == 0 {
            self
        } else {
            self.bumped_all(now, ps.drop_last()).bumped(now, ps.last())
        }
    }
}

impl FolderView {
    /// The deletions that a finished scan found, and the folder with them.
    pub open spec fn scan_swept(self, now: Timestamp, seen: Set<Seq<u8>>) -> WithChanges {
        let s = FolderView { scan: None, ..self };
        WithChanges { folder: s, changes: Seq::empty() }.vanished_all(
            now,
            s.gone_among(live_among(s.index.records, s.index.paths()), seen),
        )
    }

    /// The folder after a scan finished.
    pub open spec fn scan_finished(self, now: Timestamp) -> FolderView {
        match self.scan {
            None => self,
            Some(seen) => {
                let w = self.scan_swept(now, seen);
                let t = w.folder;
                let u = t.reconsidered_all(
                    now,
                    t.unseen_among(in_order(t.deferred.dom()), seen),
                );
                if w.changes.len() > 0 {
                    u.touched(now)
                } else {
                    u
                }
            },
        }
    }

    /// The check before sending: what the next batch would count, and the brake's answer.
    pub open spec fn precheck(self) -> (Summary, Verdict) {
        let summary = summary_of(self.index.unannounced());
        (summary, verdict(self.rules, summary, self.index.announced_tracked as usize))
    }

    /// The batches that everything unannounced forms.
    pub open spec fn fresh_batches(self, now: Timestamp, base: BatchId) -> Seq<BatchView> {
        formed(
            base,
            self.id,
            self.index.own,
            now,
            self.index.unannounced(),
            self.index.announced_seq,
        )
    }

    /// The folder after everything was announced.
    pub open spec fn announced(self) -> FolderView {
        FolderView {
            index: self.index.announced(),
            window: None,
            quarantine: self.quarantine.forgotten(),
            ..self
        }
    }

    /// The folder after a tick.
    pub open spec fn ticked(self, now: Timestamp, base: BatchId) -> FolderView {
        if !self.is_due(now) {
            self
        } else {
            let (summary, v) = self.precheck();
            match self.paused {
                Some(p) => FolderView {
                    window: None,
                    paused: Some(Paused { would_pass: !(v is Hold), summary, ..p }),
                    ..self
                },
                None => match v {
                    Verdict::Pass => self.announced(),
                    Verdict::Hold(reason) => FolderView {
                        window: None,
                        paused: Some(
                            Paused { batch: base, since: now, reason, summary, would_pass: false },
                        ),
                        ..self
                    },
                },
            }
        }
    }

    /// What a tick did.
    pub open spec fn tick_result(self, now: Timestamp, base: BatchId) -> TickedView {
        if !self.is_due(now) {
            TickedView::Nothing
        } else {
            let (summary, v) = self.precheck();
            match self.paused {
                Some(p) => TickedView::Paused {
                    first: false,
                    snapshot: Seq::empty(),
                    status: StatusView::PausedRecheck {
                        batch: p.batch,
                        would_pass: !(v is Hold),
                        summary,
                    },
                },
                None => match v {
                    Verdict::Pass => if self.fresh_batches(now, base).len() == 0 {
                        TickedView::Nothing
                    } else {
                        TickedView::Sent(self.fresh_batches(now, base))
                    },
                    Verdict::Hold(reason) => TickedView::Paused {
                        first: true,
                        snapshot: self.fresh_batches(now, base),
                        status: StatusView::Paused { batch: base, reason, summary },
                    },
                },
            }
        }
    }

    /// What a peer has acknowledged.
    pub open spec fn acked_by(self, peer: NodeId) -> u64 {
        if self.acked.contains_key(peer) {
            self.acked[peer]
        } else {
            0
        }
    }

    /// The batches that bring a peer up to date, with identifiers from `base` on.
    pub open spec fn catchup_for(self, now: Timestamp, base: BatchId, peer: NodeId) -> Seq<
        BatchView,
    > {
        let records = self.index.announced_since(self.acked_by(peer));
        formed(
            base,
            self.id,
            self.index.own,
            now,
            Seq::new(records.len(), |i: int| (records[i], None::<ChangeKind>)),
            self.acked_by(peer),
        )
    }

    /// How many batches bring some peers up to date.
    pub open spec fn catchup_used(self, now: Timestamp, base: BatchId, ps: Seq<NodeId>) -> nat
        decreases ps.len(),
    {
        if ps.len() == 0 {
            0
        } else {
            let used = self.catchup_used(now, base, ps.drop_last());
            used + self.catchup_for(now, base.after(used as int), ps.last()).len()
        }
    }

    /// The batches that bring some peers up to date. Peers that need none are left out.
    pub open spec fn catchup_all(self, now: Timestamp, base: BatchId, ps: Seq<NodeId>) -> Seq<
        (NodeId, Seq<BatchView>),
    >
        decreases ps.len(),
    {
        if ps.len() == 0 {
            Seq::empty()
        } else {
            let used = self.catchup_used(now, base, ps.drop_last());
            let batches = self.catchup_for(now, base.after(used as int), ps.last());
            let rest = self.catchup_all(now, base, ps.drop_last());
            if batches.len() > 0 {
                rest.push((ps.last(), batches))
            } else {
                rest
            }
        }
    }

    /// The folder with a source named for the entries at some paths.
    pub open spec fn sourced(
        self,
        raw: Map<Seq<u8>, EntryView>,
        ks: Seq<Seq<u8>>,
        source: NodeId,
    ) -> FolderView
        decreases ks.len(),
    {
        if ks.len() == 0 {
            self
        } else {
            let s = self.sourced(raw, ks.drop_last(), source);
            FolderView {
                wants: s.wants.announced(ks.last(), raw[ks.last()].version, source),
                ..s
            }
        }
    }
}

impl Receiving {
    /// After one item of a batch was sorted out: one that is wanted already only counts; one
    /// that is quarantined joins its item; one at a path with a pending change of a paused folder
    /// waits; the rest is kept.
    pub open spec fn sort(
        self,
        item: ItemView,
        raw: Map<Seq<u8>, EntryView>,
        batch: BatchView,
    ) -> Receiving {
        let s = self.folder;
        let path = item.entry.path;
        if !raw.contains_key(path) {
            Receiving { kept: self.kept.push(item), ..self }
        } else if s.wants.wants.contains_key(path) && (item.entry.version
            == s.wants.wants[path].entry.version || relation(
            s.wants.wants[path].entry.version,
            item.entry.version,
        ) == Relation::Dominates) {
            Receiving { already_wanted: self.already_wanted + 1, ..self }
        } else {
            match first_match(s.quarantine.list(raw[path].path), raw[path].version) {
                Some(held) => Receiving {
                    folder: FolderView { quarantine: s.quarantine.joined(held, raw[path]), ..s },
                    joined: self.joined + 1,
                    ..self
                },
                None => if s.paused is Some && s.index.pending.contains_key(path) {
                    Receiving {
                        folder: s.deferring(
                            path,
                            DeferredView {
                                entry: raw[path],
                                batch: batch.id,
                                source: batch.source,
                                seq_high: batch.seq_high,
                                reason: DeferredReason::Frozen,
                            },
                        ),
                        frozen: self.frozen + 1,
                        ..self
                    }
                } else {
                    Receiving { kept: self.kept.push(item), ..self }
                },
            }
        }
    }

    /// After some items of a batch were sorted out, in turn.
    pub open spec fn sort_all(
        self,
        items: Seq<ItemView>,
        raw: Map<Seq<u8>, EntryView>,
        batch: BatchView,
    ) -> Receiving
        decreases items.len(),
    {
        if items.len() == 0 {
            self
        } else {
            self.sort_all(items.drop_last(), raw, batch).sort(items.last(), raw, batch)
        }
    }
}

/// The entries of some items as received.
pub open spec fn raws_for(items: Seq<ItemView>, raw: Map<Seq<u8>, EntryView>) -> Map<
    Seq<u8>,
    EntryView,
>
    decreases items.len(),
{
    if items.len() == 0 {
        Map::empty()
    } else {
        let rest = raws_for(items.drop_last(), raw);
        let p = items.last().entry.path;
        if raw.contains_key(p) {
            rest.insert(p, raw[p])
        } else {
            rest
        }
    }
}

/// Items with their entries as received.
pub open spec fn paired(items: Seq<ItemView>, raw: Map<Seq<u8>, EntryView>) -> Seq<
    (ItemView, EntryView),
> {
    Seq::new(
        items.len(),
        |i: int|
            (
                items[i],
                if raw.contains_key(items[i].entry.path) {
                    raw[items[i].entry.path]
                } else {
                    items[i].entry
                },
            ),
    )
}

/// A folder's state and what receiving produced.
pub struct WithReceived {
    pub folder: FolderView,
    pub received: ReceivedView,
}

impl FolderView {
    /// The items of a received batch sorted out.
    pub open spec fn receiving(self, batch: BatchView) -> Receiving {
        let s = FolderView {
            index: self.index.received(batch.source, batch.seq_low, batch.seq_high),
            ..self
        };
        let set = apply_set_of(s.index, batch);
        let raw = last_by_path(batch.entries);
        let t = s.counting(set.fallbacks).sourced(raw, in_order(raw.dom()), batch.source);
        Receiving {
            folder: t,
            kept: Seq::empty(),
            joined: 0,
            frozen: 0,
            already_wanted: 0,
        }.sort_all(set.items, raw, batch)
    }

    /// The folder after a batch was received, and what that produced.
    pub open spec fn received(self, now: Timestamp, batch: BatchView) -> WithReceived {
        let raw = last_by_path(batch.entries);
        let r = self.receiving(batch);
        let s = r.folder;
        let set = ApplySetView {
            items: r.kept,
            ..apply_set_of(
                self.index.received(batch.source, batch.seq_low, batch.seq_high),
                batch,
            )
        };
        let summary = weight(s.index, r.kept);
        match verdict(s.rules, summary, s.index.tracked_count() as usize) {
            Verdict::Hold(reason) => WithReceived {
                folder: FolderView {
                    quarantine: s.quarantine.held(
                        HeldItemView {
                            batch: batch.id,
                            source: batch.source,
                            seq_high: batch.seq_high,
                            held_at: now,
                            reason,
                            entries: raws_for(r.kept, raw),
                        },
                    ),
                    ..s
                },
                received: ReceivedView {
                    set,
                    decision: DecisionView::Held { reason: reason.text() },
                    summary,
                    joined: r.joined,
                    frozen: r.frozen,
                    already_wanted: r.already_wanted,
                    held: Some(reason),
                },
            },
            Verdict::Pass => WithReceived {
                folder: s.wanting_all(
                    paired(r.kept, raw),
                    batch.id,
                    batch.source,
                    batch.seq_high,
                ),
                received: ReceivedView {
                    set,
                    decision: DecisionView::Accepted,
                    summary,
                    joined: r.joined,
                    frozen: r.frozen,
                    already_wanted: r.already_wanted,
                    held: None,
                },
            },
        }
    }
}

/// What the entries at some paths come to now, each with the entry that stands at its path.
pub open spec fn released_among(
    s: IndexView,
    entries: Map<Seq<u8>, EntryView>,
    ks: Seq<Seq<u8>>,
) -> Seq<(ItemView, EntryView)>
    decreases ks.len(),
{
    if ks.len() == 0 {
        Seq::empty()
    } else {
        let rest = released_among(s, entries, ks.drop_last());
        match classified(s, entries[ks.last()]).item {
            Some(item) => rest.push(
                (
                    item,
                    if entries.contains_key(item.entry.path) {
                        entries[item.entry.path]
                    } else {
                        item.entry
                    },
                ),
            ),
            None => rest,
        }
    }
}

/// Items with their entries as candidates of one batch.
pub open spec fn as_candidates(
    pairs: Seq<(ItemView, EntryView)>,
    batch: BatchId,
    source: NodeId,
    seq_high: u64,
) -> Seq<CandidateView> {
    Seq::new(
        pairs.len(),
        |i: int|
            CandidateView { item: pairs[i].0, raw: pairs[i].1, batch, source, seq_high },
    )
}

/// A folder's state and what an approval did.
pub struct WithApproved {
    pub folder: FolderView,
    pub approved: ApprovedView,
}

impl FolderView {
    /// The folder after a held item was released.
    pub open spec fn release(self, now: Timestamp, batch: BatchId) -> WithApproved {
        let item = self.quarantine.items[batch];
        let ks = in_order(item.entries.dom());
        let pairs = by_path(released_among(self.index, item.entries, ks));
        let fallbacks = crate::batch::fallbacks_among(self.index, item.entries, ks);
        let s = FolderView {
            quarantine: self.quarantine.released(batch),
            ..self
        }.counting(fallbacks);
        if pairs.len() == 0 {
            WithApproved { folder: s, approved: ApprovedView::Released(None) }
        } else {
            WithApproved {
                folder: s.let_in(
                    now,
                    as_candidates(pairs, item.batch, item.source, item.seq_high),
                    false,
                ),
                approved: ApprovedView::Released(
                    Some(
                        ApplySetView {
                            folder: self.id,
                            batch: item.batch,
                            source: item.source,
                            seq_high: item.seq_high,
                            items: items_of(pairs),
                            ignored: 0,
                            duplicates: 0,
                            fallbacks,
                        },
                    ),
                ),
            }
        }
    }

    /// The folder after an approval: of a held item, or of the paused batch.
    pub open spec fn approve(self, now: Timestamp, batch: BatchId) -> WithApproved {
        if self.quarantine.items.contains_key(batch) {
            self.release(now, batch)
        } else if self.paused is Some && (self.paused->0).batch == batch {
            WithApproved {
                folder: FolderView { paused: None, ..self.announced() }.unfrozen(now),
                approved: ApprovedView::Sent(self.fresh_batches(now, batch)),
            }
        } else {
            WithApproved { folder: self, approved: ApprovedView::Unknown }
        }
    }

    /// The folder after the wants at some paths were classified against the index.
    pub open spec fn reclassified_all(self, now: Timestamp, ps: Seq<Seq<u8>>) -> FolderView
        decreases ps.len(),
    {
        if ps.len() == 0 {
            self
        } else {
            self.reclassified_all(now, ps.drop_last()).reclassified(now, ps.last())
        }
    }

    /// The folder after a denial, and the changes it made.
    pub open spec fn denial(self, now: Timestamp, batch: BatchId) -> WithChanges {
        let ps = in_order(self.quarantine.items[batch].entries.dom());
        let w = WithChanges { folder: self, changes: Seq::empty() }.bumped_all(now, ps);
        let s = FolderView { quarantine: w.folder.quarantine.denial(batch), ..w.folder };
        let t = if ps.len() > 0 {
            s.touched(now)
        } else {
            s
        };
        WithChanges { folder: t.reclassified_all(now, ps), ..w }
    }

    /// The want for an entry that a revert restored.
    pub open spec fn restoring_want(self, entry: EntryView, batch: BatchId) -> WantView {
        WantView {
            entry,
            received: entry,
            mode: if entry.kind == Kind::Dir {
                ApplyMode::Direct
            } else {
                ApplyMode::Fetch
            },
            conflict: None,
            batch,
            source: self.index.own,
            seq_high: 0,
            sources: self.members.remove(self.index.own),
            answered: Set::empty(),
            excluded: Set::empty(),
            mismatches: 0,
            fetched: false,
            restoring: true,
            state: WantState::Wanted,
        }
    }

    /// Whether an undone path has a live entry again.
    pub open spec fn revives(r: RevertedView) -> bool {
        r.restored is Some && !(r.restored->0).entry.deleted
    }

    /// The folder after the wants at some undone paths were settled: a live entry that was
    /// restored is wanted again, any other want is classified against what was put back.
    pub open spec fn resettled(
        self,
        now: Timestamp,
        batch: BatchId,
        rs: Seq<RevertedView>,
    ) -> FolderView
        decreases rs.len(),
    {
        if rs.len() == 0 {
            self
        } else {
            let s = self.resettled(now, batch, rs.drop_last());
            let r = rs.last();
            if Self::revives(r) {
                let e = (r.restored->0).entry;
                FolderView { wants: s.wants.put(e.path, s.restoring_want(e, batch)), ..s }
            } else {
                s.redone(now, r.path)
            }
        }
    }
}

/// The undone paths whose files go to the trash.
pub open spec fn trashed_among(rs: Seq<RevertedView>) -> Seq<Seq<u8>>
    decreases rs.len(),
{
    if rs.len() == 0 {
        Seq::empty()
    } else {
        let rest = trashed_among(rs.drop_last());
        if rs.last().current is Some && !(rs.last().current->0).deleted {
            rest.push(rs.last().path)
        } else {
            rest
        }
    }
}

/// How many undone paths have a live entry again.
pub open spec fn revived_among(rs: Seq<RevertedView>) -> nat
    decreases rs.len(),
{
    if rs.len() == 0 {
        0
    } else {
        revived_among(rs.drop_last()) + if FolderView::revives(rs.last()) {
            1nat
        } else {
            0nat
        }
    }
}

impl IndexView {
    /// What undoing every pending change reports.
    pub open spec fn reverted_list(self) -> Seq<RevertedView> {
        Seq::new(
            in_order(self.pending.dom()).len(),
            |i: int| self.reverted_at(in_order(self.pending.dom())[i]),
        )
    }
}

impl FolderView {
    /// The folder after a revert.
    pub open spec fn reverted(self, now: Timestamp) -> FolderView {
        match self.paused {
            None => self,
            Some(p) => {
                let rs = self.index.reverted_list();
                FolderView {
                    window: None,
                    ..FolderView {
                        paused: None,
                        index: self.index.reverted(),
                        quarantine: self.quarantine.all_returned(),
                        ..self
                    }.resettled(now, p.batch, rs)
                }.unfrozen(now)
            },
        }
    }

    /// What a revert did.
    pub open spec fn revert_result(self) -> Option<RevertView> {
        match self.paused {
            None => None,
            Some(p) => {
                let rs = self.index.reverted_list();
                Some(
                    RevertView {
                        batch: p.batch,
                        reverted: rs,
                        trash: trashed_among(rs),
                        refetch: revived_among(rs),
                    },
                )
            },
        }
    }

    /// Whether a held item would pass the brake now.
    pub open spec fn would_pass(self, item: HeldItemView) -> bool {
        let items = crate::batch::items_among(
            self.index,
            item.entries,
            in_order(item.entries.dom()),
        );
        !(verdict(
            self.rules,
            weight(self.index, items),
            self.index.tracked_count() as usize,
        ) is Hold)
    }

    /// What new rules say of held items.
    pub open spec fn rechecks(self, ks: Seq<BatchId>) -> Seq<StatusView> {
        Seq::new(
            ks.len(),
            |i: int|
                StatusView::RulesRecheck {
                    batch: self.quarantine.items[ks[i]].batch,
                    would_pass: self.would_pass(self.quarantine.items[ks[i]]),
                },
        )
    }

    /// The folder after its rules changed.
    pub open spec fn ruled(self, rules: Rules) -> FolderView {
        let s = FolderView { rules, ..self };
        match s.paused {
            None => s,
            Some(p) => FolderView {
                paused: Some(
                    Paused { would_pass: !(s.precheck().1 is Hold), summary: s.precheck().0, ..p },
                ),
                ..s
            },
        }
    }

    /// What a change of rules reports.
    pub open spec fn ruled_result(self, rules: Rules) -> Seq<StatusView> {
        let s = FolderView { rules, ..self };
        let held = s.rechecks(in_order(s.quarantine.items.dom()));
        match s.paused {
            None => held,
            Some(p) => held.push(
                StatusView::RulesRecheck { batch: p.batch, would_pass: !(s.precheck().1 is Hold) },
            ),
        }
    }

    /// The folder after a peer acknowledged what it holds.
    pub open spec fn acknowledged(self, peer: NodeId, watermark: u64) -> FolderView {
        FolderView {
            acked: self.acked.insert(peer, watermark),
            catchup: if watermark < self.index.announced_seq {
                self.catchup.insert(peer)
            } else {
                self.catchup
            },
            ..self
        }
    }

    /// Whether a report settles that restored content exists nowhere: every other member has
    /// answered that it does not have it.
    pub open spec fn lost(self, path: Seq<u8>, version: Vector, report: FetchReport) -> bool {
        &&& self.wants.wants_version(path, version)
        &&& report == FetchReport::NotAvailable
        &&& self.wants.wants[path].restoring
        &&& forall|m: NodeId| #[trigger]
            self.members.contains(m) ==> m == self.index.own || self.wants.wants[path].reported(
                report,
            ).answered.contains(m)
    }

    /// The folder after the host's report on a fetch.
    pub open spec fn fetched(
        self,
        now: Timestamp,
        path: Seq<u8>,
        version: Vector,
        report: FetchReport,
    ) -> FolderView {
        let s = FolderView { wants: self.wants.reported(path, version, report), ..self };
        if self.lost(path, version, report) {
            let t = FolderView {
                wants: s.wants.removed(path),
                index: s.index.observe_lost(path, now.0),
                ..s
            };
            if self.index.absent_change(path, now.0) is Some {
                t.touched(now)
            } else {
                t
            }
        } else {
            s
        }
    }

    /// What a report on a fetch did: the want's new state, if the report matched one and it
    /// remains, or the tombstone of content that exists nowhere.
    pub open spec fn fetch_result(
        self,
        now: Timestamp,
        path: Seq<u8>,
        version: Vector,
        report: FetchReport,
    ) -> FetchedView {
        if self.lost(path, version, report) {
            FetchedView { state: None, unrecoverable: self.index.absent_change(path, now.0) }
        } else {
            FetchedView {
                state: if self.wants.wants_version(path, version) {
                    Some(self.wants.wants[path].reported(report).state)
                } else {
                    None
                },
                unrecoverable: None,
            }
        }
    }

    /// The folder after a restart.
    pub open spec fn restarted(self) -> FolderView {
        FolderView {
            wants: self.wants.restarted_among(self.wants.paths()),
            scan: None,
            catchup: Set::empty(),
            window: None,
            ..self
        }
    }

    /// What the index believes is at a path.
    pub open spec fn expected(self, path: Seq<u8>) -> Option<Expected> {
        match self.index.live(path) {
            Some(r) => Some(
                Expected {
                    kind: r.entry.kind,
                    size: r.entry.size,
                    mtime_ns: r.entry.mtime_ns,
                },
            ),
            None => None,
        }
    }

    /// The folder after a remote entry was adopted, if it could be.
    pub open spec fn adopting(self, now: Timestamp, entry: EntryView) -> FolderView {
        if self.index.adoptable(entry) {
            FolderView { index: self.index.adopted(entry), ..self }.touched(now)
        } else {
            self
        }
    }

    /// The folder with what a want was after waiting for the next observation.
    pub open spec fn postponing(self, w: WantView) -> FolderView {
        self.deferring(
            w.entry.path,
            DeferredView {
                entry: w.entry,
                batch: w.batch,
                source: w.source,
                seq_high: w.seq_high,
                reason: DeferredReason::ChangedUnderneath,
            },
        )
    }
}

/// The step that commits a want.
pub open spec fn commit_step(w: WantView, expected: Option<Expected>) -> HostStepView {
    let displace = match w.conflict {
        Some(copy) => DisplaceView::ConflictCopy(copy.path),
        None => DisplaceView::Trash,
    };
    if w.mode == ApplyMode::MetadataOnly {
        HostStepView::SetMeta {
            path: w.entry.path,
            mtime_ns: w.entry.mtime_ns,
            executable: w.entry.executable,
        }
    } else if w.entry.deleted {
        HostStepView::Remove { path: w.entry.path, expected, displace }
    } else {
        HostStepView::Write { path: w.entry.path, entry: w.entry, expected, displace }
    }
}

impl WithSteps {
    /// After one step of the want-list was turned into a step for the host, or an adoption.
    pub open spec fn take(self, now: Timestamp, step: WantStepView) -> WithSteps {
        let s = self.folder;
        match step {
            WantStepView::Fetch { path, version, from } => WithSteps {
                host: self.host.push(
                    HostStepView::Fetch {
                        path,
                        version,
                        hash: match s.wants.get(path) {
                            Some(w) => w.entry.hash,
                            None => ContentHash::empty(),
                        },
                        size: match s.wants.get(path) {
                            Some(w) => w.entry.size,
                            None => 0,
                        },
                        from,
                    },
                ),
                ..self
            },
            WantStepView::Commit(w) => WithSteps {
                host: self.host.push(commit_step(w, s.expected(w.entry.path))),
                ..self
            },
            WantStepView::Adopt(w) => {
                let t = if s.index.adoptable(w.entry) {
                    s.adopting(now, w.entry)
                } else {
                    s.postponing(w)
                };
                WithSteps {
                    folder: t.reconsidered(now, w.entry.path, DeferredReason::ChangedUnderneath),
                    adopted: if s.index.adoptable(w.entry) {
                        self.adopted.push(
                            RecordView {
                                entry: w.entry,
                                seq: crate::index::next_number(s.index.seq),
                            },
                        )
                    } else {
                        self.adopted
                    },
                    ..self
                }
            },
        }
    }

    /// After some steps of the want-list.
    pub open spec fn take_all(self, now: Timestamp, steps: Seq<WantStepView>) -> WithSteps
        decreases steps.len(),
    {
        if steps.len() == 0 {
            self
        } else {
            self.take_all(now, steps.drop_last()).take(now, steps.last())
        }
    }
}

/// A folder's state and the records that were written.
pub struct WithRecords {
    pub folder: FolderView,
    pub records: Seq<RecordView>,
}

impl FolderView {
    /// The folder after its want-list was dispatched.
    pub open spec fn dispatched(self, now: Timestamp, peers: Map<NodeId, Tier>) -> WithSteps {
        let d = self.wants.dispatched(now, self.rules, peers);
        WithSteps {
            folder: FolderView { wants: d.list, ..self },
            host: Seq::empty(),
            adopted: Seq::empty(),
        }.take_all(now, d.steps)
    }

    /// The folder after the host put a want in place, or could not.
    pub open spec fn applied(
        self,
        now: Timestamp,
        path: Seq<u8>,
        version: Vector,
        outcome: ApplyOutcome,
    ) -> WithRecords {
        if !self.wants.wants_version(path, version) {
            WithRecords { folder: self, records: Seq::empty() }
        } else {
            let w = self.wants.wants[path];
            let s = FolderView { wants: self.wants.removed(path), ..self };
            if outcome == ApplyOutcome::ChangedUnderneath || !s.index.adoptable(w.entry) {
                WithRecords { folder: s.postponing(w), records: Seq::empty() }
            } else {
                let t = s.adopting(now, w.entry);
                let record = RecordView {
                    entry: w.entry,
                    seq: crate::index::next_number(s.index.seq),
                };
                match w.conflict {
                    None => WithRecords {
                        folder: t.reconsidered(now, path, DeferredReason::ChangedUnderneath),
                        records: seq![record],
                    },
                    Some(copy) => {
                        let e = t.index.copy_entry(copy.path, copy.loser);
                        WithRecords {
                            folder: FolderView {
                                index: t.index.written(e),
                                ..t
                            }.touched(now).reclassified(now, copy.path).reconsidered(
                                now,
                                path,
                                DeferredReason::ChangedUnderneath,
                            ),
                            records: seq![record, t.index.change(e).record],
                        }
                    },
                }
            }
        }
    }
}

} // verus!
