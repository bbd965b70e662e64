//! Batches: forming them from what was written since the last one, and computing what a received
//! one would change.
//!
//! A batch carries every record written since the last one, in the order of the sender's sequence
//! numbers. A long run is split, and a sender's batches chain: each starts at the sequence number
//! at which the one before ended. The summary counts the sender's own changes.
//!
//! On receipt each entry is compared with the local record. What dominates it is to be applied,
//! what does not is dropped, and what is concurrent is merged with it. Every entry to apply
//! dominates the local record; they stand in path order.

use crate::conflict::{
    conflict_copy_name, copy_path, merged, merged_of, resolve, resolved, winner, winner_of,
    ConflictCopy, ConflictCopyView, Side,
};
use crate::entry::{Entry, EntryView, Kind};
use crate::id::{BatchId, FolderId, NodeId};
use crate::index::{ChangeKind, Index, IndexRecord, IndexView, RecordView};
use crate::order::{in_order, increasing, lemma_in_order_exists, Ordered};
use crate::ordmap::{OrdMap, Value};
use crate::path::RelPath;
use crate::time::Timestamp;
use crate::version::{covers, law_merge_of_concurrent_dominates, relation, Relation};
use vstd::prelude::*;

verus! {

/// Most entries in one batch. Longer runs are split.
pub const MAX_BATCH_ENTRIES: usize = 10_000;

/// The sum of two counts, held at the end of the range.
pub open spec fn sum_u64(a: u64, b: u64) -> u64 {
    if a + b > u64::MAX {
        u64::MAX
    } else {
        (a + b) as u64
    }
}

/// Counts for a batch. Counts stop at the end of their range.
#[derive(Clone, Copy, Debug, PartialEq, Eq, Hash, Structural)]
pub struct Summary {
    pub adds: u64,
    pub mods: u64,
    pub dels: u64,
    /// Bytes of counted adds and mods.
    pub bytes: u64,
}

impl DeepView for Summary {
    type V = Summary;

    open spec fn deep_view(&self) -> Summary {
        *self
    }
}

impl Value for Summary {
    fn dup(&self) -> (r: Summary) {
        *self
    }

    fn same(&self, other: &Summary) -> (r: bool) {
        *self == *other
    }
}

impl Default for Summary {
    fn default() -> (r: Summary)
        ensures
            r == Summary::zero(),
    {
        Summary { adds: 0, mods: 0, dels: 0, bytes: 0 }
    }
}

impl Summary {
    /// Nothing counted.
    pub open spec fn zero() -> Summary {
        Summary { adds: 0, mods: 0, dels: 0, bytes: 0 }
    }

    /// One more add.
    pub open spec fn plus_add(self, size: u64) -> Summary {
        Summary { adds: sum_u64(self.adds, 1), bytes: sum_u64(self.bytes, size), ..self }
    }

    /// One more modification.
    pub open spec fn plus_mod(self, size: u64) -> Summary {
        Summary { mods: sum_u64(self.mods, 1), bytes: sum_u64(self.bytes, size), ..self }
    }

    /// One more deletion.
    pub open spec fn plus_del(self) -> Summary {
        Summary { dels: sum_u64(self.dels, 1), ..self }
    }

    /// The counts with one local change more. Adds always count, the rest only if content changed.
    pub open spec fn counted(self, entry: EntryView, kind: ChangeKind) -> Summary {
        match kind {
            ChangeKind::Add => self.plus_add(entry.size),
            ChangeKind::Modify => if entry.metadata_only() {
                self
            } else {
                self.plus_mod(entry.size)
            },
            ChangeKind::Delete => if entry.metadata_only() {
                self
            } else {
                self.plus_del()
            },
        }
    }

    /// Deletions and modifications.
    pub open spec fn destroyed(self) -> u64 {
        sum_u64(self.dels, self.mods)
    }

    pub(crate) fn add_one(&mut self, size: u64)
        ensures
            *final(self) == old(self).plus_add(size),
    {
        self.adds = self.adds.saturating_add(1);
        self.bytes = self.bytes.saturating_add(size);
    }

    pub(crate) fn modify_one(&mut self, size: u64)
        ensures
            *final(self) == old(self).plus_mod(size),
    {
        self.mods = self.mods.saturating_add(1);
        self.bytes = self.bytes.saturating_add(size);
    }

    pub(crate) fn delete_one(&mut self)
        ensures
            *final(self) == old(self).plus_del(),
    {
        self.dels = self.dels.saturating_add(1);
    }

    /// Counts one of this machine's local changes.
    pub fn count(&mut self, entry: &Entry, kind: ChangeKind)
        ensures
            *final(self) == old(self).counted(entry@, kind),
    {
        match kind {
            ChangeKind::Add => {
                self.add_one(entry.size);
            },
            ChangeKind::Modify => {
                if !entry.is_metadata_only() {
                    self.modify_one(entry.size);
                }
            },
            ChangeKind::Delete => {
                if !entry.is_metadata_only() {
                    self.delete_one();
                }
            },
        }
    }

    /// Deletions and modifications together.
    pub fn destructive(&self) -> (r: u64)
        ensures
            r == self.destroyed(),
    {
        self.dels.saturating_add(self.mods)
    }
}

/// A set of entry versions announced together by one machine.
#[derive(Clone, Debug, PartialEq, Eq)]
pub struct Batch {
    pub id: BatchId,
    pub folder: FolderId,
    pub source: NodeId,
    /// When the sender formed it.
    pub created_at: Timestamp,
    /// Where the sender's batch before this one ended, 0 for the first.
    pub seq_low: u64,
    /// The sender's sequence number of the newest entry.
    pub seq_high: u64,
    /// In the order of the sender's sequence numbers.
    pub entries: Vec<Entry>,
    /// The sender's own local changes in this batch.
    pub summary: Summary,
}

/// What a batch stands for.
pub struct BatchView {
    pub id: BatchId,
    pub folder: FolderId,
    pub source: NodeId,
    pub created_at: Timestamp,
    pub seq_low: u64,
    pub seq_high: u64,
    pub entries: Seq<EntryView>,
    pub summary: Summary,
}

impl View for Batch {
    type V = BatchView;

    open spec fn view(&self) -> BatchView {
        BatchView {
            id: self.id,
            folder: self.folder,
            source: self.source,
            created_at: self.created_at,
            seq_low: self.seq_low,
            seq_high: self.seq_high,
            entries: self.entries.deep_view(),
            summary: self.summary,
        }
    }
}

impl DeepView for Batch {
    type V = BatchView;

    open spec fn deep_view(&self) -> BatchView {
        self.view()
    }
}

impl Value for Batch {
    fn dup(&self) -> (r: Batch) {
        Batch {
            id: self.id,
            folder: self.folder,
            source: self.source,
            created_at: self.created_at,
            seq_low: self.seq_low,
            seq_high: self.seq_high,
            entries: self.entries.dup(),
            summary: self.summary,
        }
    }

    fn same(&self, other: &Batch) -> (r: bool) {
        self.id == other.id && self.folder == other.folder && self.source == other.source
            && self.created_at == other.created_at && self.seq_low == other.seq_low && self.seq_high
            == other.seq_high && self.entries.same(&other.entries) && self.summary == other.summary
    }
}

/// A receiver's verdict on a batch.
#[derive(Clone, Debug, PartialEq, Eq, Hash)]
pub enum Decision {
    /// What it changes goes into the want-list.
    Accepted,
    /// What it changes is kept apart until a human approves.
    Held { reason: String },
}

/// What a decision stands for.
pub enum DecisionView {
    Accepted,
    Held { reason: Seq<char> },
}

impl View for Decision {
    type V = DecisionView;

    open spec fn view(&self) -> DecisionView {
        match self {
            Decision::Accepted => DecisionView::Accepted,
            Decision::Held { reason } => DecisionView::Held { reason: reason@ },
        }
    }
}

impl DeepView for Decision {
    type V = DecisionView;

    open spec fn deep_view(&self) -> DecisionView {
        self.view()
    }
}

impl Value for Decision {
    fn dup(&self) -> (r: Decision) {
        match self {
            Decision::Accepted => Decision::Accepted,
            Decision::Held { reason } => Decision::Held { reason: reason.clone() },
        }
    }

    fn same(&self, other: &Decision) -> (r: bool) {
        match (self, other) {
            (Decision::Accepted, Decision::Accepted) => true,
            (Decision::Held { reason: a }, Decision::Held { reason: b }) => *a == *b,
            _ => false,
        }
    }
}

/// The reply to a batch, which is also the acknowledgement.
#[derive(Clone, Debug, PartialEq, Eq, Hash)]
pub struct BatchDecision {
    pub batch: BatchId,
    pub folder: FolderId,
    pub decision: Decision,
    /// Everything of the sender up to here has been received.
    pub seq_high: u64,
}

/// What a reply stands for.
pub struct BatchDecisionView {
    pub batch: BatchId,
    pub folder: FolderId,
    pub decision: DecisionView,
    pub seq_high: u64,
}

impl View for BatchDecision {
    type V = BatchDecisionView;

    open spec fn view(&self) -> BatchDecisionView {
        BatchDecisionView {
            batch: self.batch,
            folder: self.folder,
            decision: self.decision@,
            seq_high: self.seq_high,
        }
    }
}

impl DeepView for BatchDecision {
    type V = BatchDecisionView;

    open spec fn deep_view(&self) -> BatchDecisionView {
        self.view()
    }
}

impl Value for BatchDecision {
    fn dup(&self) -> (r: BatchDecision) {
        BatchDecision {
            batch: self.batch,
            folder: self.folder,
            decision: self.decision.dup(),
            seq_high: self.seq_high,
        }
    }

    fn same(&self, other: &BatchDecision) -> (r: bool) {
        self.batch == other.batch && self.folder == other.folder && self.decision.same(
            &other.decision,
        ) && self.seq_high == other.seq_high
    }
}

/// Why a batch is recorded in history.
#[derive(Clone, Copy, Debug, PartialEq, Eq, Hash, Structural)]
pub enum BatchRole {
    /// This machine formed and sent it.
    Sent,
    /// A peer sent it and this machine decided on it.
    Received,
    /// This machine formed it, and its own check paused the folder.
    Paused,
}

// ---- forming ----------------------------------------------------------------

/// The summary of some records.
pub open spec fn summary_of(records: Seq<(RecordView, Option<ChangeKind>)>) -> Summary
    decreases records.len(),
{
    if records.len() == 0 {
        Summary::zero()
    } else {
        let s = summary_of(records.drop_last());
        match records.last().1 {
            Some(kind) => s.counted(records.last().0.entry, kind),
            None => s,
        }
    }
}

/// How many batches some records take.
pub open spec fn chunk_count(n: nat) -> nat {
    ((n + MAX_BATCH_ENTRIES - 1) / MAX_BATCH_ENTRIES as int) as nat
}

/// The records of one batch.
pub open spec fn chunk<A>(records: Seq<A>, i: int) -> Seq<A> {
    let low = i * MAX_BATCH_ENTRIES;
    let high = low + MAX_BATCH_ENTRIES;
    records.subrange(
        low,
        if high <= records.len() {
            high
        } else {
            records.len() as int
        },
    )
}

/// One of the batches that some records are formed into.
pub open spec fn batch_at(
    base: BatchId,
    folder: FolderId,
    source: NodeId,
    now: Timestamp,
    records: Seq<(RecordView, Option<ChangeKind>)>,
    seq_low: u64,
    i: int,
) -> BatchView {
    let part = chunk(records, i);
    BatchView {
        id: base.after(i),
        folder,
        source,
        created_at: now,
        seq_low: if i == 0 {
            seq_low
        } else {
            records[i * MAX_BATCH_ENTRIES - 1].0.seq
        },
        seq_high: part.last().0.seq,
        entries: Seq::new(part.len(), |j: int| part[j].0.entry),
        summary: summary_of(part),
    }
}

/// The batches that some records are formed into.
pub open spec fn formed(
    base: BatchId,
    folder: FolderId,
    source: NodeId,
    now: Timestamp,
    records: Seq<(RecordView, Option<ChangeKind>)>,
    seq_low: u64,
) -> Seq<BatchView> {
    Seq::new(
        chunk_count(records.len()),
        |i: int| batch_at(base, folder, source, now, records, seq_low, i),
    )
}

/// A sender's batches chain, starting where the one before ended; each is within the limit and
/// not empty; and together they hold every record once, in order.
pub proof fn law_formation_chains(
    base: BatchId,
    folder: FolderId,
    source: NodeId,
    now: Timestamp,
    records: Seq<(RecordView, Option<ChangeKind>)>,
    seq_low: u64,
)
    ensures
        ({
            let b = formed(base, folder, source, now, records, seq_low);
            &&& b.len() > 0 <==> records.len() > 0
            &&& b.len() > 0 ==> b[0].seq_low == seq_low && b.last().seq_high
                == records.last().0.seq
            &&& forall|i: int| 0 < i < b.len() ==> (#[trigger] b[i]).seq_low == b[i - 1].seq_high
            &&& forall|i: int|
                0 <= i < b.len() ==> 0 < (#[trigger] b[i]).entries.len() <= MAX_BATCH_ENTRIES
            &&& forall|k: int|
                0 <= k < records.len() ==> {
                    let i = k / (MAX_BATCH_ENTRIES as int);
                    let j = k % (MAX_BATCH_ENTRIES as int);
                    0 <= i < b.len() && 0 <= j < b[i].entries.len() && b[i].entries[j] == (
                    #[trigger] records[k]).0.entry
                }
        }),
{
    let b = formed(base, folder, source, now, records, seq_low);
    assert forall|i: int| 0 <= i < b.len() implies 0 < (#[trigger] b[i]).entries.len()
        <= MAX_BATCH_ENTRIES by {}
    assert forall|i: int| 0 < i < b.len() implies (#[trigger] b[i]).seq_low == b[i
        - 1].seq_high by {
        let p = chunk(records, i - 1);
        assert(p.len() == MAX_BATCH_ENTRIES);
    }
}

/// Forms the batch or batches for records written since the last one. `records` are in the order
/// of the sequence numbers. Batch `i` gets the identifier `i` places after `base`. No records
/// form no batch.
pub fn form(
    base: BatchId,
    folder: FolderId,
    source: NodeId,
    now: Timestamp,
    records: &Vec<(&IndexRecord, Option<ChangeKind>)>,
    seq_low: u64,
) -> (r: Vec<Batch>)
    ensures
        r.deep_view() == formed(base, folder, source, now, records.deep_view(), seq_low),
{
    let ghost rs = records.deep_view();
    let mut out: Vec<Batch> = Vec::new();
    let mut start: usize = 0;
    let mut low: u64 = seq_low;
    let mut number: u128 = 0;
    while start < records.len()
        invariant
            start <= records.len(),
            rs == records.deep_view(),
            number == out.len(),
            number <= start,
            start == if number * MAX_BATCH_ENTRIES <= records.len() {
                number * MAX_BATCH_ENTRIES
            } else {
                records.len() as int
            },
            start < records.len() ==> start == number * MAX_BATCH_ENTRIES,
            start == records.len() ==> number == chunk_count(rs.len()),
            low == if start == 0 {
                seq_low
            } else {
                rs[start - 1].0.seq
            },
            forall|i: int|
                0 <= i < out.len() ==> (#[trigger] out@[i]).deep_view() == batch_at(
                    base,
                    folder,
                    source,
                    now,
                    rs,
                    seq_low,
                    i,
                ),
        decreases records.len() - start,
    {
        let end: usize = if records.len() - start > MAX_BATCH_ENTRIES {
            start + MAX_BATCH_ENTRIES
        } else {
            records.len()
        };
        let ghost part = chunk(rs, number as int);
        assert(part =~= rs.subrange(start as int, end as int));
        let mut summary = Summary { adds: 0, mods: 0, dels: 0, bytes: 0 };
        let mut entries: Vec<Entry> = Vec::new();
        let mut k: usize = start;
        assert(part.take(0) =~= Seq::empty());
        while k < end
            invariant
                start <= k <= end,
                end <= records.len(),
                rs == records.deep_view(),
                part == rs.subrange(start as int, end as int),
                summary == summary_of(part.take(k - start)),
                entries.len() == k - start,
                forall|j: int|
                    0 <= j < entries.len() ==> (#[trigger] entries@[j]).deep_view()
                        == part[j].0.entry,
            decreases end - k,
        {
            let record: &IndexRecord = records[k].0;
            assert(rs[k as int] == records@[k as int].deep_view());
            assert(part.take(k + 1 - start).drop_last() =~= part.take(k - start));
            if let Some(kind) = records[k].1 {
                summary.count(&record.entry, kind);
            }
            entries.push(record.entry.dup());
            k = k + 1;
        }
        assert(part.take(k - start) =~= part);
        let high: u64 = records[end - 1].0.seq;
        assert(rs[end - 1] == records@[end - 1].deep_view());
        let b = Batch {
            id: base.successor(number),
            folder,
            source,
            created_at: now,
            seq_low: low,
            seq_high: high,
            entries,
            summary,
        };
        assert(b@.entries =~= Seq::new(part.len(), |j: int| part[j].0.entry));
        assert(b@ == batch_at(base, folder, source, now, rs, seq_low, number as int));
        out.push(b);
        low = high;
        number = number + 1;
        start = end;
    }
    assert(out.deep_view() =~= formed(base, folder, source, now, rs, seq_low));
    out
}

// ---- receiving --------------------------------------------------------------

/// What applying an entry involves.
#[derive(Clone, Copy, Debug, PartialEq, Eq, Hash, Structural)]
pub enum ApplyMode {
    /// File or symlink content must be fetched first.
    Fetch,
    /// No content: a directory to create or an entry to delete.
    Direct,
    /// Same content as the local file: set modification time and executable bit, adopt the
    /// version.
    MetadataOnly,
    /// Same content and nothing to set on disk: adopt the version only.
    IndexOnly,
}

/// One candidate in an apply set: an entry that dominates the local record. For a conflict that is
/// the merged entry, and `conflict` says where the host moves the losing local file.
#[derive(Clone, Debug, PartialEq, Eq)]
pub enum ApplyItem {
    Apply {
        entry: Entry,
        mode: ApplyMode,
        /// Where the losing local file goes. `None` means to the trash, or that there is none.
        conflict: Option<ConflictCopy>,
    },
}

/// What a candidate stands for.
pub struct ItemView {
    pub entry: EntryView,
    pub mode: ApplyMode,
    pub conflict: Option<ConflictCopyView>,
}

impl View for ApplyItem {
    type V = ItemView;

    open spec fn view(&self) -> ItemView {
        match self {
            ApplyItem::Apply { entry, mode, conflict } => ItemView {
                entry: entry@,
                mode: *mode,
                conflict: conflict.deep_view(),
            },
        }
    }
}

impl DeepView for ApplyItem {
    type V = ItemView;

    open spec fn deep_view(&self) -> ItemView {
        self.view()
    }
}

impl Value for ApplyItem {
    fn dup(&self) -> (r: ApplyItem) {
        match self {
            ApplyItem::Apply { entry, mode, conflict } => ApplyItem::Apply {
                entry: entry.dup(),
                mode: *mode,
                conflict: conflict.dup(),
            },
        }
    }

    fn same(&self, other: &ApplyItem) -> (r: bool) {
        match (self, other) {
            (
                ApplyItem::Apply { entry: e, mode: m, conflict: c },
                ApplyItem::Apply { entry: f, mode: n, conflict: d },
            ) => e.same(f) && *m == *n && c.same(d),
        }
    }
}

impl ApplyItem {
    /// The path this item is about.
    pub fn path(&self) -> (r: &RelPath)
        ensures
            r@ == self@.entry.path,
    {
        &self.incoming().path
    }

    /// The entry to apply: the incoming entry, or the merged one for a conflict.
    pub fn incoming(&self) -> (r: &Entry)
        ensures
            r@ == self@.entry,
    {
        match self {
            ApplyItem::Apply { entry, .. } => entry,
        }
    }

    /// How to apply it.
    pub fn mode(&self) -> (r: ApplyMode)
        ensures
            r == self@.mode,
    {
        match self {
            ApplyItem::Apply { mode, .. } => *mode,
        }
    }

    /// The conflict copy, if a losing file is moved to one.
    pub fn conflict(&self) -> (r: Option<&ConflictCopy>)
        ensures
            r.deep_view() == self@.conflict,
    {
        match self {
            ApplyItem::Apply { conflict, .. } => conflict.as_ref(),
        }
    }
}

/// The candidates from one received batch, in path order.
#[derive(Clone, Debug, PartialEq, Eq)]
pub struct ApplySet {
    pub folder: FolderId,
    pub batch: BatchId,
    pub source: NodeId,
    pub seq_high: u64,
    pub items: Vec<ApplyItem>,
    /// Entries dropped as equal or dominated.
    pub ignored: usize,
    /// Entries whose path occurred again later in the batch.
    pub duplicates: usize,
    /// Conflicts that the last winner rule decided.
    pub fallbacks: usize,
}

/// What an apply set stands for.
pub struct ApplySetView {
    pub folder: FolderId,
    pub batch: BatchId,
    pub source: NodeId,
    pub seq_high: u64,
    pub items: Seq<ItemView>,
    pub ignored: nat,
    pub duplicates: nat,
    pub fallbacks: nat,
}

impl View for ApplySet {
    type V = ApplySetView;

    open spec fn view(&self) -> ApplySetView {
        ApplySetView {
            folder: self.folder,
            batch: self.batch,
            source: self.source,
            seq_high: self.seq_high,
            items: self.items.deep_view(),
            ignored: self.ignored as nat,
            duplicates: self.duplicates as nat,
            fallbacks: self.fallbacks as nat,
        }
    }
}

impl ApplySet {
    /// True if there is nothing to do.
    pub fn is_empty(&self) -> (r: bool)
        ensures
            r == (self@.items.len() == 0),
    {
        self.items.len() == 0
    }
}

/// The result of classifying one incoming entry.
#[derive(Clone, Debug, PartialEq, Eq)]
pub struct Classified {
    /// `None` if the entry is equal to or dominated by the local record.
    pub item: Option<ApplyItem>,
    /// The last winner rule decided a conflict.
    pub fallback: bool,
}

/// What a classification stands for.
pub struct ClassifiedView {
    pub item: Option<ItemView>,
    pub fallback: bool,
}

impl View for Classified {
    type V = ClassifiedView;

    open spec fn view(&self) -> ClassifiedView {
        ClassifiedView { item: self.item.deep_view(), fallback: self.fallback }
    }
}

/// How an entry that dominates the local record is applied.
pub open spec fn apply_mode(incoming: EntryView, local: Option<RecordView>) -> ApplyMode {
    if local is Some && (local->0).entry.same_content(incoming) {
        if incoming.kind == Kind::File && !incoming.deleted {
            ApplyMode::MetadataOnly
        } else {
            ApplyMode::IndexOnly
        }
    } else if incoming.deleted || incoming.kind == Kind::Dir {
        ApplyMode::Direct
    } else {
        ApplyMode::Fetch
    }
}

/// How an incoming entry relates to what is there. Nothing there is dominated by everything.
pub open spec fn standing(s: IndexView, incoming: EntryView) -> Relation {
    match s.get(incoming.path) {
        Some(r) => relation(incoming.version, r.entry.version),
        None => Relation::Dominates,
    }
}

/// Where a losing local entry goes: to its conflict copy, if there is something to keep and
/// nothing stands there.
pub open spec fn copy_of(s: IndexView, local: EntryView) -> Option<ConflictCopyView> {
    if local.deleted || s.live(copy_path(local)) is Some {
        None
    } else {
        Some(ConflictCopyView { path: copy_path(local), loser: local })
    }
}

/// What is to be done about an incoming entry.
pub open spec fn classified(s: IndexView, incoming: EntryView) -> ClassifiedView {
    match standing(s, incoming) {
        Relation::Dominates => ClassifiedView {
            item: Some(
                ItemView {
                    entry: incoming,
                    mode: apply_mode(incoming, s.get(incoming.path)),
                    conflict: None,
                },
            ),
            fallback: false,
        },
        Relation::Equal => ClassifiedView { item: None, fallback: false },
        Relation::Dominated => ClassifiedView { item: None, fallback: false },
        Relation::Concurrent => {
            let local = s.records[incoming.path].entry;
            if local.same_content(incoming) {
                let m = if winner_of(incoming, local).side == Side::First {
                    merged_of(incoming, local)
                } else {
                    merged_of(local, incoming)
                };
                ClassifiedView {
                    item: Some(
                        ItemView {
                            entry: m,
                            mode: if m.kind == Kind::File && !m.deleted && m.mtime_ns
                                != local.mtime_ns {
                                ApplyMode::MetadataOnly
                            } else {
                                ApplyMode::IndexOnly
                            },
                            conflict: None,
                        },
                    ),
                    fallback: false,
                }
            } else {
                let r = resolved(incoming, local);
                ClassifiedView {
                    item: Some(
                        if r.winner == Side::Second {
                            ItemView {
                                entry: r.merged,
                                mode: ApplyMode::IndexOnly,
                                conflict: None,
                            }
                        } else {
                            ItemView {
                                entry: r.merged,
                                mode: if r.merged.deleted || r.merged.kind == Kind::Dir {
                                    ApplyMode::Direct
                                } else {
                                    ApplyMode::Fetch
                                },
                                conflict: copy_of(s, local),
                            }
                        },
                    ),
                    fallback: r.fallback,
                }
            }
        },
    }
}

/// What is to be applied dominates the local record and stands at the path of the incoming entry;
/// what is not is neither newer than the local record nor concurrent with it.
pub proof fn law_candidates_dominate(s: IndexView, incoming: EntryView)
    requires
        s.well_formed(),
    ensures
        match classified(s, incoming).item {
            Some(item) => {
                &&& item.entry.path == incoming.path
                &&& covers(item.entry.version, incoming.version)
                &&& s.records.contains_key(incoming.path) ==> relation(
                    item.entry.version,
                    s.records[incoming.path].entry.version,
                ) == Relation::Dominates
            },
            None => s.records.contains_key(incoming.path) && covers(
                s.records[incoming.path].entry.version,
                incoming.version,
            ),
        },
{
    if standing(s, incoming) == Relation::Concurrent {
        let local = s.records[incoming.path].entry;
        law_merge_of_concurrent_dominates(incoming.version, local.version);
        crate::version::law_merge_commutative(incoming.version, local.version);
    }
}

/// Nothing changes on disk where the local content wins, and a live local loser that is displaced
/// by another's content is kept unless its conflict copy's place is taken.
pub proof fn law_conflict_keeps_the_loser(s: IndexView, incoming: EntryView)
    requires
        standing(s, incoming) == Relation::Concurrent,
    ensures
        ({
            let local = s.records[incoming.path].entry;
            let item = classified(s, incoming).item->0;
            &&& !local.same_content(incoming) && winner_of(incoming, local).side == Side::Second
                ==> item.mode == ApplyMode::IndexOnly && item.entry.same_content(local)
            &&& !local.same_content(incoming) && winner_of(incoming, local).side == Side::First
                && !local.deleted && s.live(copy_path(local)) is None ==> item.conflict == Some(
                ConflictCopyView { path: copy_path(local), loser: local },
            )
        }),
{
}

/// How one dominating entry is applied over the local record.
fn mode_for(incoming: &Entry, local: Option<&IndexRecord>) -> (r: ApplyMode)
    ensures
        r == apply_mode(incoming@, local.deep_view()),
{
    if let Some(l) = local {
        if l.entry.same_content(incoming) {
            if incoming.kind == Kind::File && !incoming.deleted {
                return ApplyMode::MetadataOnly;
            }
            return ApplyMode::IndexOnly;
        }
    }
    if incoming.deleted || incoming.kind == Kind::Dir {
        ApplyMode::Direct
    } else {
        ApplyMode::Fetch
    }
}

/// Classifies one incoming entry against the index.
///
/// - It dominates the local record: apply it as it is.
/// - Equal or dominated: nothing.
/// - Concurrent with identical content: the merge, with the fields of the side that wins.
/// - Concurrent with different content: the merge. If the local record is the loser and live, the
///   file goes to its conflict copy unless that place is taken. If it is the winner, nothing
///   changes on disk.
pub fn classify(index: &Index, incoming: &Entry) -> (r: Classified)
    ensures
        r@ == classified(index@, incoming@),
{
    let local = index.get(&incoming.path);
    let relation = match local {
        Some(l) => incoming.version.compare(&l.entry.version),
        None => Relation::Dominates,
    };
    match relation {
        Relation::Dominates => {
            let mode = mode_for(incoming, local);
            Classified {
                item: Some(ApplyItem::Apply { entry: incoming.dup(), mode, conflict: None }),
                fallback: false,
            }
        },
        Relation::Equal => Classified { item: None, fallback: false },
        Relation::Dominated => Classified { item: None, fallback: false },
        Relation::Concurrent => {
            let local = match local {
                Some(l) => &l.entry,
                None => {
                    return Classified { item: None, fallback: false };
                },
            };
            if local.same_content(incoming) {
                let pick = winner(incoming, local);
                let m = match pick.side {
                    Side::First => merged(incoming, local),
                    Side::Second => merged(local, incoming),
                };
                let mode = if m.kind == Kind::File && !m.deleted && m.mtime_ns != local.mtime_ns {
                    ApplyMode::MetadataOnly
                } else {
                    ApplyMode::IndexOnly
                };
                return Classified {
                    item: Some(ApplyItem::Apply { entry: m, mode, conflict: None }),
                    fallback: false,
                };
            }
            let resolution = resolve(incoming, local);
            match resolution.winner {
                Side::Second => Classified {
                    item: Some(
                        ApplyItem::Apply {
                            entry: resolution.merged,
                            mode: ApplyMode::IndexOnly,
                            conflict: None,
                        },
                    ),
                    fallback: resolution.fallback,
                },
                Side::First => {
                    let mode = if resolution.merged.deleted || resolution.merged.kind == Kind::Dir {
                        ApplyMode::Direct
                    } else {
                        ApplyMode::Fetch
                    };
                    let copy = if local.deleted {
                        None
                    } else {
                        match conflict_copy_name(local) {
                            Some(path) => if index.live(&path).is_none() {
                                Some(ConflictCopy { path, loser: local.dup() })
                            } else {
                                None
                            },
                            None => None,
                        }
                    };
                    Classified {
                        item: Some(
                            ApplyItem::Apply { entry: resolution.merged, mode, conflict: copy },
                        ),
                        fallback: resolution.fallback,
                    }
                },
            }
        },
    }
}

/// The last entry of each path.
pub open spec fn last_by_path(entries: Seq<EntryView>) -> Map<Seq<u8>, EntryView>
    decreases entries.len(),
{
    if entries.len() == 0 {
        Map::empty()
    } else {
        last_by_path(entries.drop_last()).insert(entries.last().path, entries.last())
    }
}

/// What is to be done about the entries at some paths.
pub open spec fn items_among(
    s: IndexView,
    m: Map<Seq<u8>, EntryView>,
    ks: Seq<Seq<u8>>,
) -> Seq<ItemView>
    decreases ks.len(),
{
    if ks.len() == 0 {
        Seq::empty()
    } else {
        match classified(s, m[ks.last()]).item {
            Some(item) => items_among(s, m, ks.drop_last()).push(item),
            None => items_among(s, m, ks.drop_last()),
        }
    }
}

/// How many of the entries at some paths the last winner rule decides.
pub open spec fn fallbacks_among(
    s: IndexView,
    m: Map<Seq<u8>, EntryView>,
    ks: Seq<Seq<u8>>,
) -> nat
    decreases ks.len(),
{
    if ks.len() == 0 {
        0
    } else {
        fallbacks_among(s, m, ks.drop_last()) + if classified(s, m[ks.last()]).fallback {
            1nat
        } else {
            0nat
        }
    }
}

/// What a batch would change.
pub open spec fn apply_set_of(s: IndexView, batch: BatchView) -> ApplySetView {
    let m = last_by_path(batch.entries);
    let ks = in_order(m.dom());
    let items = items_among(s, m, ks);
    ApplySetView {
        folder: batch.folder,
        batch: batch.id,
        source: batch.source,
        seq_high: batch.seq_high,
        items,
        ignored: (ks.len() - items.len()) as nat,
        duplicates: (batch.entries.len() - ks.len()) as nat,
        fallbacks: fallbacks_among(s, m, ks),
    }
}

proof fn lemma_last_by_path(entries: Seq<EntryView>)
    ensures
        last_by_path(entries).dom().finite(),
        last_by_path(entries).dom().len() <= entries.len(),
        forall|p: Seq<u8>| #[trigger]
            last_by_path(entries).contains_key(p) ==> last_by_path(entries)[p].path == p
                && entries.contains(last_by_path(entries)[p]),
    decreases entries.len(),
{
    if entries.len() > 0 {
        let t = entries.drop_last();
        lemma_last_by_path(t);
        assert forall|p: Seq<u8>| #[trigger] last_by_path(entries).contains_key(p) implies
            last_by_path(entries)[p].path == p && entries.contains(last_by_path(entries)[p]) by {
            if p == entries.last().path {
                assert(entries[entries.len() - 1] == entries.last());
            } else {
                let e = last_by_path(t)[p];
                assert(last_by_path(t).contains_key(p));
                let i = choose|i: int| 0 <= i < t.len() && t[i] == e;
                assert(entries[i] == e);
            }
        }
    }
}

proof fn lemma_items_among(s: IndexView, m: Map<Seq<u8>, EntryView>, ks: Seq<Seq<u8>>)
    requires
        s.well_formed(),
        increasing(ks),
        forall|i: int| 0 <= i < ks.len() ==> m[#[trigger] ks[i]].path == ks[i],
    ensures
        items_among(s, m, ks).len() <= ks.len(),
        forall|j: int|
            0 <= j < items_among(s, m, ks).len() ==> ks.contains(
                (#[trigger] items_among(s, m, ks)[j]).entry.path,
            ) && Some(items_among(s, m, ks)[j]) == classified(
                s,
                m[items_among(s, m, ks)[j].entry.path],
            ).item,
        forall|i: int, j: int|
            0 <= i < j < items_among(s, m, ks).len() ==> (#[trigger] items_among(
                s,
                m,
                ks,
            )[i]).entry.path.before((#[trigger] items_among(s, m, ks)[j]).entry.path),
    decreases ks.len(),
{
    if ks.len() > 0 {
        let t = ks.drop_last();
        assert forall|i: int| 0 <= i < t.len() implies m[#[trigger] t[i]].path == t[i] by {
            assert(m[ks[i]].path == ks[i]);
        }
        lemma_items_among(s, m, t);
        law_candidates_dominate(s, m[ks.last()]);
        assert(m[ks[ks.len() - 1]].path == ks.last());
        let old_items = items_among(s, m, t);
        let items = items_among(s, m, ks);
        assert forall|j: int| 0 <= j < items.len() implies ks.contains(
            (#[trigger] items[j]).entry.path,
        ) && Some(items[j]) == classified(s, m[items[j].entry.path]).item by {
            if j < old_items.len() {
                assert(items[j] == old_items[j]);
                let i = choose|i: int| 0 <= i < t.len() && t[i] == old_items[j].entry.path;
                assert(ks[i] == items[j].entry.path);
            } else {
                assert(ks[ks.len() - 1] == items[j].entry.path);
            }
        }
        assert forall|i: int, j: int| 0 <= i < j < items.len() implies (
        #[trigger] items[i]).entry.path.before((#[trigger] items[j]).entry.path) by {
            assert(items[i] == old_items[i]);
            if j < old_items.len() {
                assert(items[j] == old_items[j]);
            } else {
                let a = choose|a: int| 0 <= a < t.len() && t[a] == old_items[i].entry.path;
                assert(ks[a].before(ks[ks.len() - 1]));
            }
        }
    }
}

/// Every item of an apply set stands at a path that the batch names.
pub proof fn lemma_apply_set_paths(s: IndexView, batch: BatchView)
    requires
        s.well_formed(),
    ensures
        forall|j: int|
            0 <= j < apply_set_of(s, batch).items.len() ==> last_by_path(
                batch.entries,
            ).contains_key((#[trigger] apply_set_of(s, batch).items[j]).entry.path),
{
    let m = last_by_path(batch.entries);
    lemma_last_by_path(batch.entries);
    crate::order::lemma_order_facts(m.dom());
    let ks = in_order(m.dom());
    assert forall|i: int| 0 <= i < ks.len() implies m[#[trigger] ks[i]].path == ks[i] by {
        assert(m.dom().contains(ks[i]));
    }
    lemma_items_among(s, m, ks);
    assert forall|j: int| 0 <= j < apply_set_of(s, batch).items.len() implies m.contains_key(
        (#[trigger] apply_set_of(s, batch).items[j]).entry.path,
    ) by {
        let p = apply_set_of(s, batch).items[j].entry.path;
        assert(ks.contains(p));
        assert(m.dom().contains(p));
    }
}

/// The apply set stands in path order, with one item a path, so every directory comes before its
/// contents; and every item dominates the local record.
pub proof fn law_apply_set_ordered(s: IndexView, batch: BatchView)
    requires
        s.well_formed(),
    ensures
        ({
            let items = apply_set_of(s, batch).items;
            &&& forall|i: int, j: int|
                0 <= i < j < items.len() ==> (#[trigger] items[i]).entry.path.before(
                    (#[trigger] items[j]).entry.path,
                )
            &&& forall|j: int|
                0 <= j < items.len() ==> (s.records.contains_key(
                    (#[trigger] items[j]).entry.path,
                ) ==> relation(
                    items[j].entry.version,
                    s.records[items[j].entry.path].entry.version,
                ) == Relation::Dominates)
        }),
{
    let m = last_by_path(batch.entries);
    lemma_last_by_path(batch.entries);
    lemma_in_order_exists(m.dom());
    let ks = in_order(m.dom());
    assert forall|i: int| 0 <= i < ks.len() implies m[#[trigger] ks[i]].path == ks[i] by {
        assert(ks.contains(ks[i]));
        assert(m.dom().contains(ks[i]));
        assert(m.contains_key(ks[i]));
    }
    lemma_items_among(s, m, ks);
    let items = apply_set_of(s, batch).items;
    assert forall|j: int| 0 <= j < items.len() implies (s.records.contains_key(
        (#[trigger] items[j]).entry.path,
    ) ==> relation(
        items[j].entry.version,
        s.records[items[j].entry.path].entry.version,
    ) == Relation::Dominates) by {
        let p = items[j].entry.path;
        assert(ks.contains(p));
        let a = choose|a: int| 0 <= a < ks.len() && ks[a] == p;
        assert(m[ks[a]].path == ks[a]);
        law_candidates_dominate(s, m[p]);
    }
}

/// Computes what `batch` would change. Of a path that occurs more than once the last entry counts.
pub fn apply_set(index: &Index, batch: &Batch) -> (r: ApplySet)
    ensures
        r@ == apply_set_of(index@, batch@),
{
    let ghost es = batch.entries.deep_view();
    let mut latest: OrdMap<RelPath, Entry> = OrdMap::new();
    let mut i: usize = 0;
    assert(es.take(0) =~= Seq::empty());
    assert(latest@ =~= last_by_path(es.take(0)));
    while i < batch.entries.len()
        invariant
            i <= batch.entries.len(),
            es == batch.entries.deep_view(),
            latest@ == last_by_path(es.take(i as int)),
        decreases batch.entries.len() - i,
    {
        let entry = &batch.entries[i];
        assert(es.take(i + 1).drop_last() =~= es.take(i as int));
        assert(es.take(i + 1).last() == entry@);
        latest.insert(entry.path.dup(), entry.dup());
        i = i + 1;
    }
    assert(es.take(i as int) =~= es);
    proof {
        lemma_last_by_path(es);
    }
    let ghost m = latest@;
    let ghost ks = in_order(m.dom());
    let n: usize = latest.len();
    let mut items: Vec<ApplyItem> = Vec::new();
    let mut ignored: usize = 0;
    let mut fallbacks: usize = 0;
    let mut k: usize = 0;
    assert(ks.take(0) =~= Seq::empty());
    assert(items.deep_view() =~= items_among(index@, m, ks.take(0)));
    while k < n
        invariant
            k <= n,
            n == latest@.dom().len(),
            n == ks.len(),
            m == latest@,
            ks == in_order(m.dom()),
            items.len() + ignored == k,
            fallbacks <= k,
            items.deep_view() == items_among(index@, m, ks.take(k as int)),
            fallbacks == fallbacks_among(index@, m, ks.take(k as int)),
        decreases n - k,
    {
        let c = classify(index, latest.value_at(k));
        let ghost before = items.deep_view();
        assert(ks.take(k + 1).drop_last() =~= ks.take(k as int));
        if c.fallback {
            fallbacks = fallbacks + 1;
        }
        match c.item {
            Some(item) => {
                items.push(item);
                assert(items.deep_view() =~= before.push(item@));
            },
            None => {
                ignored = ignored + 1;
            },
        }
        k = k + 1;
    }
    assert(ks.take(k as int) =~= ks);
    let duplicates: usize = batch.entries.len() - n;
    ApplySet {
        folder: batch.folder,
        batch: batch.id,
        source: batch.source,
        seq_high: batch.seq_high,
        items,
        ignored,
        duplicates,
        fallbacks,
    }
}

} // verus!
