//! The per-folder index: one record per path, this machine's sequence numbers, what was received
//! from each peer, and the local changes that are not announced yet.
//!
//! A record changes in two ways. A local change ([`Index::observe`], [`Index::observe_absent`])
//! raises this machine's counter in the entry's version and joins the pending set until
//! [`Index::mark_announced`]. Adopting ([`Index::adopt`]) takes over a remote version after it
//! has been put on disk.
//!
//! For every path with a pending change the index keeps the record that peers last saw. Its hash
//! is the change's `prev_hash`, so several changes before one announcement are one step from what
//! was announced, and it is what [`Index::revert_pending`] puts back.
//!
//! Sequence numbers stop at the end of their range.

use crate::entry::{ContentHash, Entry, EntryView, Kind, Observed};
use crate::id::{HostName, NodeId};
use crate::order::{in_order, lemma_in_order_exists};
use crate::ordmap::{Key, OrdMap, OrdSet, Value};
use crate::path::RelPath;
use crate::time::clamp_i64;
use crate::version::{join, raise, Vector, Version};
use vstd::prelude::*;

verus! {

/// An [`Entry`] with this machine's sequence number for it.
#[derive(Clone, Debug, PartialEq, Eq)]
pub struct IndexRecord {
    pub entry: Entry,
    /// This machine's sequence number when the record was last written.
    pub seq: u64,
}

/// What a record stands for.
pub struct RecordView {
    pub entry: EntryView,
    pub seq: u64,
}

impl View for IndexRecord {
    type V = RecordView;

    open spec fn view(&self) -> RecordView {
        RecordView { entry: self.entry@, seq: self.seq }
    }
}

impl DeepView for IndexRecord {
    type V = RecordView;

    open spec fn deep_view(&self) -> RecordView {
        self.view()
    }
}

impl Value for IndexRecord {
    fn dup(&self) -> (r: IndexRecord) {
        IndexRecord { entry: self.entry.dup(), seq: self.seq }
    }

    fn same(&self, other: &IndexRecord) -> (r: bool) {
        self.entry.same(&other.entry) && self.seq == other.seq
    }
}

/// How a pending local change relates to the last version that peers saw.
#[derive(Clone, Copy, Debug, PartialEq, Eq, Hash, Structural)]
pub enum ChangeKind {
    /// Nothing was there, or a tombstone was.
    Add,
    /// A live entry changed.
    Modify,
    /// A live entry vanished. The record is now a tombstone.
    Delete,
}

impl DeepView for ChangeKind {
    type V = ChangeKind;

    open spec fn deep_view(&self) -> ChangeKind {
        *self
    }
}

impl Value for ChangeKind {
    fn dup(&self) -> (r: ChangeKind) {
        *self
    }

    fn same(&self, other: &ChangeKind) -> (r: bool) {
        *self == *other
    }
}

impl ChangeKind {
    /// The step from what peers last saw to what is there now.
    pub open spec fn step(announced_live: bool, now_live: bool) -> ChangeKind {
        if !now_live {
            ChangeKind::Delete
        } else if announced_live {
            ChangeKind::Modify
        } else {
            ChangeKind::Add
        }
    }

    /// The step from what peers last saw to what is there now.
    fn between(announced_live: bool, now_live: bool) -> (r: ChangeKind)
        ensures
            r == ChangeKind::step(announced_live, now_live),
    {
        match (announced_live, now_live) {
            (false, true) => ChangeKind::Add,
            (true, true) => ChangeKind::Modify,
            (_, false) => ChangeKind::Delete,
        }
    }
}

/// One path undone by a revert.
#[derive(Clone, Debug, PartialEq, Eq)]
pub struct Reverted {
    pub path: RelPath,
    /// The record that was there.
    pub current: Option<Entry>,
    /// The record peers last saw, now back in place; `None` if the record was removed because
    /// peers never saw the path.
    pub restored: Option<IndexRecord>,
}

/// What an undone path stands for.
pub struct RevertedView {
    pub path: Seq<u8>,
    pub current: Option<EntryView>,
    pub restored: Option<RecordView>,
}

impl View for Reverted {
    type V = RevertedView;

    open spec fn view(&self) -> RevertedView {
        RevertedView {
            path: self.path@,
            current: self.current.deep_view(),
            restored: self.restored.deep_view(),
        }
    }
}

impl DeepView for Reverted {
    type V = RevertedView;

    open spec fn deep_view(&self) -> RevertedView {
        self.view()
    }
}

/// A local change that the index has recorded.
#[derive(Clone, Debug, PartialEq, Eq)]
pub struct LocalChange {
    /// The step from what peers last saw to the new record.
    pub kind: ChangeKind,
    pub record: IndexRecord,
}

/// What a local change stands for.
pub struct ChangeView {
    pub kind: ChangeKind,
    pub record: RecordView,
}

impl View for LocalChange {
    type V = ChangeView;

    open spec fn view(&self) -> ChangeView {
        ChangeView { kind: self.kind, record: self.record@ }
    }
}

impl DeepView for LocalChange {
    type V = ChangeView;

    open spec fn deep_view(&self) -> ChangeView {
        self.view()
    }
}

/// What this machine holds of one peer's sequence numbers.
#[derive(Clone, Debug, PartialEq, Eq)]
pub struct Watermark {
    /// Every number up to here has been received.
    contiguous: u64,
    /// Ranges `(low, high]` received above a gap, keyed by `low`.
    ranges: OrdMap<u64, u64>,
}

/// What a watermark stands for.
pub struct WatermarkView {
    pub contiguous: u64,
    pub ranges: Map<u64, u64>,
}

impl View for Watermark {
    type V = WatermarkView;

    closed spec fn view(&self) -> WatermarkView {
        WatermarkView { contiguous: self.contiguous, ranges: self.ranges@ }
    }
}

impl DeepView for Watermark {
    type V = WatermarkView;

    open spec fn deep_view(&self) -> WatermarkView {
        self.view()
    }
}

impl Value for Watermark {
    fn dup(&self) -> (r: Watermark) {
        Watermark { contiguous: self.contiguous, ranges: self.ranges.dup() }
    }

    fn same(&self, other: &Watermark) -> (r: bool) {
        self.contiguous == other.contiguous && self.ranges.same(&other.ranges)
    }
}

impl WatermarkView {
    /// Nothing received yet.
    pub open spec fn zero() -> WatermarkView {
        WatermarkView { contiguous: 0, ranges: Map::empty() }
    }

    /// Whether a number has been received.
    pub open spec fn covers(self, s: int) -> bool {
        s <= self.contiguous || exists|low: u64| #[trigger]
            self.ranges.contains_key(low) && low < s <= self.ranges[low]
    }

    /// The watermark after it has taken in every range that it touches, lowest first.
    pub open spec fn absorbed(self) -> WatermarkView
        decreases self.ranges.dom().len(),
        when self.ranges.dom().finite()
        via Self::absorbed_decreases
    {
        let lows = in_order(self.ranges.dom());
        if lows.len() > 0 && lows[0] <= self.contiguous {
            let high = self.ranges[lows[0]];
            WatermarkView {
                contiguous: if high > self.contiguous {
                    high
                } else {
                    self.contiguous
                },
                ranges: self.ranges.remove(lows[0]),
            }.absorbed()
        } else {
            self
        }
    }

    #[via_fn]
    proof fn absorbed_decreases(self) {
        lemma_in_order_exists(self.ranges.dom());
        let lows = in_order(self.ranges.dom());
        if lows.len() > 0 {
            assert(lows.contains(lows[0]));
        }
    }

    /// The watermark after the range `(low, high]` has arrived.
    pub open spec fn received(self, low: u64, high: u64) -> WatermarkView {
        if high <= self.contiguous {
            self
        } else if low <= self.contiguous {
            WatermarkView { contiguous: high, ..self }.absorbed()
        } else {
            WatermarkView {
                ranges: self.ranges.insert(
                    low,
                    if self.ranges.contains_key(low) && self.ranges[low] > high {
                        self.ranges[low]
                    } else {
                        high
                    },
                ),
                ..self
            }.absorbed()
        }
    }
}

/// Taking in ranges changes nothing about what has been received, never moves the watermark back,
/// and leaves only ranges above a gap.
pub proof fn lemma_absorbed(w: WatermarkView)
    requires
        w.ranges.dom().finite(),
    ensures
        w.absorbed().ranges.dom().finite(),
        w.contiguous <= w.absorbed().contiguous,
        forall|s: int| #[trigger] w.absorbed().covers(s) <==> w.covers(s),
        forall|low: u64| #[trigger]
            w.absorbed().ranges.contains_key(low) ==> low > w.absorbed().contiguous,
    decreases w.ranges.dom().len(),
{
    lemma_in_order_exists(w.ranges.dom());
    let lows = in_order(w.ranges.dom());
    if lows.len() > 0 && lows[0] <= w.contiguous {
        assert(lows.contains(lows[0]));
        let high = w.ranges[lows[0]];
        let n = WatermarkView {
            contiguous: if high > w.contiguous {
                high
            } else {
                w.contiguous
            },
            ranges: w.ranges.remove(lows[0]),
        };
        lemma_absorbed(n);
        assert forall|s: int| #[trigger] w.absorbed().covers(s) <==> w.covers(s) by {
            assert(n.absorbed().covers(s) <==> n.covers(s));
            if w.covers(s) && !(s <= w.contiguous) {
                let low = choose|low: u64| #[trigger]
                    w.ranges.contains_key(low) && low < s <= w.ranges[low];
                if low != lows[0] {
                    assert(n.ranges.contains_key(low));
                }
            }
            if n.covers(s) && !(s <= n.contiguous) {
                let low = choose|low: u64| #[trigger]
                    n.ranges.contains_key(low) && low < s <= n.ranges[low];
                assert(w.ranges.contains_key(low));
            }
            if s <= n.contiguous && !(s <= w.contiguous) {
                assert(w.ranges.contains_key(lows[0]));
            }
        }
    } else {
        assert forall|low: u64| #[trigger] w.ranges.contains_key(low) implies low
            > w.contiguous by {
            assert(lows.contains(low));
            let i = choose|i: int| 0 <= i < lows.len() && lows[i] == low;
            if i > 0 {
                assert(crate::order::Ordered::before(lows[0], lows[i]));
            }
        }
    }
}

/// After a range arrives, exactly the numbers in it are received besides those that were; the
/// watermark does not move back; what is remembered above it lies behind a gap.
pub proof fn law_received_range(w: WatermarkView, low: u64, high: u64)
    requires
        w.ranges.dom().finite(),
    ensures
        forall|s: int| #[trigger]
            w.received(low, high).covers(s) <==> w.covers(s) || low < s <= high,
        w.contiguous <= w.received(low, high).contiguous,
        low <= w.contiguous ==> high <= w.received(low, high).contiguous,
        w.received(low, high).ranges.dom().finite(),
{
    let r = w.received(low, high);
    if high <= w.contiguous {
    } else if low <= w.contiguous {
        let n = WatermarkView { contiguous: high, ..w };
        lemma_absorbed(n);
        assert forall|s: int| #[trigger] r.covers(s) <==> w.covers(s) || low < s <= high by {
            assert(n.absorbed().covers(s) <==> n.covers(s));
            if w.covers(s) && !(s <= w.contiguous) {
                let l = choose|l: u64| #[trigger]
                    w.ranges.contains_key(l) && l < s <= w.ranges[l];
                assert(n.ranges.contains_key(l));
            }
            if n.covers(s) && !(s <= n.contiguous) {
                let l = choose|l: u64| #[trigger]
                    n.ranges.contains_key(l) && l < s <= n.ranges[l];
                assert(w.ranges.contains_key(l));
            }
        }
    } else {
        let top = if w.ranges.contains_key(low) && w.ranges[low] > high {
            w.ranges[low]
        } else {
            high
        };
        let n = WatermarkView { ranges: w.ranges.insert(low, top), ..w };
        lemma_absorbed(n);
        assert forall|s: int| #[trigger] r.covers(s) <==> w.covers(s) || low < s <= high by {
            assert(n.absorbed().covers(s) <==> n.covers(s));
            if w.covers(s) && !(s <= w.contiguous) {
                let l = choose|l: u64| #[trigger]
                    w.ranges.contains_key(l) && l < s <= w.ranges[l];
                assert(n.ranges.contains_key(l));
            }
            if low < s <= high {
                assert(n.ranges.contains_key(low));
            }
            if n.covers(s) && !(s <= n.contiguous) {
                let l = choose|l: u64| #[trigger]
                    n.ranges.contains_key(l) && l < s <= n.ranges[l];
                if l != low {
                    assert(w.ranges.contains_key(l));
                } else if w.ranges.contains_key(low) && s > high {
                    assert(w.ranges.contains_key(low) && low < s <= w.ranges[low]);
                }
            }
        }
    }
}

// ---- the model --------------------------------------------------------------

/// What an index stands for.
pub struct IndexView {
    pub own: NodeId,
    pub host: Seq<u8>,
    /// One record per known path, tombstones too.
    pub records: Map<Seq<u8>, RecordView>,
    /// The last sequence number given out.
    pub seq: u64,
    /// What was received from each peer.
    pub peer_seq: Map<NodeId, WatermarkView>,
    /// Paths with an unannounced local change, and what peers last saw there.
    pub pending: Map<Seq<u8>, Option<RecordView>>,
    /// Pending deletions of content that exists nowhere.
    pub exempt: Set<Seq<u8>>,
    /// The sequence number of the last announcement.
    pub announced_seq: u64,
    /// How many entries were tracked at the last announcement.
    pub announced_tracked: nat,
}

/// The sequence number after another.
pub open spec fn next_number(seq: u64) -> u64 {
    if seq < u64::MAX {
        (seq + 1) as u64
    } else {
        seq
    }
}

/// The stamp after another.
pub open spec fn next_stamp(stamp: i64) -> i64 {
    clamp_i64(stamp + 1)
}

/// The larger of two stamps.
pub open spec fn later(a: i64, b: i64) -> i64 {
    if a >= b {
        a
    } else {
        b
    }
}

/// Whether a record is of a file or symlink that is there.
pub open spec fn is_content(r: RecordView) -> bool {
    !r.entry.deleted && r.entry.kind != Kind::Dir
}

/// How many of some records are tracked.
pub open spec fn tracked_among(m: Map<Seq<u8>, RecordView>, ks: Seq<Seq<u8>>) -> nat
    decreases ks.len(),
{
    if ks.len() == 0 {
        0
    } else {
        tracked_among(m, ks.drop_last()) + if is_content(m[ks.last()]) {
            1nat
        } else {
            0nat
        }
    }
}

/// The live ones of some records.
pub open spec fn live_among(m: Map<Seq<u8>, RecordView>, ks: Seq<Seq<u8>>) -> Seq<RecordView>
    decreases ks.len(),
{
    if ks.len() == 0 {
        Seq::empty()
    } else if m[ks.last()].entry.deleted {
        live_among(m, ks.drop_last())
    } else {
        live_among(m, ks.drop_last()).push(m[ks.last()])
    }
}

/// The ones of some records that were written after a sequence number.
pub open spec fn since_among(
    m: Map<Seq<u8>, RecordView>,
    ks: Seq<Seq<u8>>,
    after: u64,
) -> Seq<RecordView>
    decreases ks.len(),
{
    if ks.len() == 0 {
        Seq::empty()
    } else if m[ks.last()].seq > after {
        since_among(m, ks.drop_last(), after).push(m[ks.last()])
    } else {
        since_among(m, ks.drop_last(), after)
    }
}

/// Whether content with this hash can be had from a record.
pub open spec fn holds(r: RecordView, hash: ContentHash) -> bool {
    is_content(r) && r.entry.hash == hash
}

/// The paths, other than one, of records from which content can be had.
pub open spec fn holding_among(
    m: Map<Seq<u8>, RecordView>,
    ks: Seq<Seq<u8>>,
    hash: ContentHash,
    but: Seq<u8>,
) -> Seq<Seq<u8>>
    decreases ks.len(),
{
    if ks.len() == 0 {
        Seq::empty()
    } else if ks.last() != but && holds(m[ks.last()], hash) {
        holding_among(m, ks.drop_last(), hash, but).push(m[ks.last()].entry.path)
    } else {
        holding_among(m, ks.drop_last(), hash, but)
    }
}

/// The larger counters of a version and of every version in a list.
pub open spec fn join_all(base: Vector, over: Seq<Vector>) -> Vector
    decreases over.len(),
{
    if over.len() == 0 {
        base
    } else {
        join(join_all(base, over.drop_last()), over.last())
    }
}

/// An observation as it is recorded: in normal form, and with a modification time for files only.
pub open spec fn recorded(o: Observed) -> Observed {
    Observed {
        mtime_ns: if o.kind == Kind::File {
            o.mtime_ns
        } else {
            0
        },
        ..o.normal_form()
    }
}

/// What versions stand for.
pub open spec fn vectors(vs: Seq<Version>) -> Seq<Vector> {
    Seq::new(vs.len(), |i: int| vs[i]@)
}

/// The pending changes at some paths.
pub open spec fn pending_among(s: IndexView, ks: Seq<Seq<u8>>) -> Seq<(RecordView, ChangeKind)>
    decreases ks.len(),
{
    if ks.len() == 0 {
        Seq::empty()
    } else {
        match s.pending_kind(ks.last()) {
            Some(kind) => pending_among(s, ks.drop_last()).push((s.records[ks.last()], kind)),
            None => pending_among(s, ks.drop_last()),
        }
    }
}

impl IndexView {
    /// An index that nothing has been written to.
    pub open spec fn initial(own: NodeId, host: Seq<u8>) -> IndexView {
        IndexView {
            own,
            host,
            records: Map::empty(),
            seq: 0,
            peer_seq: Map::empty(),
            pending: Map::empty(),
            exempt: Set::empty(),
            announced_seq: 0,
            announced_tracked: 0,
        }
    }

    /// What always holds of an index: records stand under their paths, only known paths are
    /// pending, and no record is newer than the last sequence number.
    pub open spec fn well_formed(self) -> bool {
        &&& self.records.dom().finite()
        &&& forall|p: Seq<u8>| #[trigger]
            self.records.contains_key(p) ==> self.records[p].entry.path == p && self.records[p].seq
                <= self.seq
        &&& forall|p: Seq<u8>| #[trigger]
            self.pending.contains_key(p) ==> self.records.contains_key(p) && (
            self.pending[p] is Some ==> (self.pending[p]->0).entry.path == p && (
            self.pending[p]->0).seq <= self.seq)
        &&& self.exempt.subset_of(self.pending.dom())
        &&& self.announced_seq <= self.seq
    }

    /// The paths in order.
    pub open spec fn paths(self) -> Seq<Seq<u8>> {
        in_order(self.records.dom())
    }

    /// The record at a path.
    pub open spec fn get(self, path: Seq<u8>) -> Option<RecordView> {
        if self.records.contains_key(path) {
            Some(self.records[path])
        } else {
            None
        }
    }

    /// The record at a path, if it is not a tombstone.
    pub open spec fn live(self, path: Seq<u8>) -> Option<RecordView> {
        if self.records.contains_key(path) && !self.records[path].entry.deleted {
            Some(self.records[path])
        } else {
            None
        }
    }

    /// How many entries are tracked.
    pub open spec fn tracked_count(self) -> nat {
        tracked_among(self.records, self.paths())
    }

    /// What peers last saw at a path.
    pub open spec fn last_seen(self, path: Seq<u8>) -> Option<RecordView> {
        if self.pending.contains_key(path) {
            self.pending[path]
        } else {
            self.get(path)
        }
    }

    /// The hash of what peers last saw at a path.
    pub open spec fn seen_hash(self, path: Seq<u8>) -> ContentHash {
        match self.last_seen(path) {
            Some(r) => r.entry.hash,
            None => ContentHash::empty(),
        }
    }

    /// Whether peers last saw a live entry at a path.
    pub open spec fn seen_live(self, path: Seq<u8>) -> bool {
        match self.last_seen(path) {
            Some(r) => !r.entry.deleted,
            None => false,
        }
    }

    /// The version at a path, empty if there is none.
    pub open spec fn version_at(self, path: Seq<u8>) -> Vector {
        match self.get(path) {
            Some(r) => r.entry.version,
            None => Map::empty(),
        }
    }

    /// The stamp of a new version at a path: above the one it replaces.
    pub open spec fn stamp_at(self, path: Seq<u8>, edited: i64) -> i64 {
        match self.get(path) {
            Some(r) => later(edited, next_stamp(r.entry.stamp)),
            None => edited,
        }
    }

    /// The kind of the pending change at a path.
    pub open spec fn pending_kind(self, path: Seq<u8>) -> Option<ChangeKind> {
        if self.pending.contains_key(path) && self.records.contains_key(path) {
            Some(
                ChangeKind::step(
                    self.pending[path] is Some && !(self.pending[path]->0).entry.deleted,
                    !self.records[path].entry.deleted,
                ),
            )
        } else {
            None
        }
    }

    /// The kind of the pending change at a path, unless it counts for nothing.
    pub open spec fn counted_kind(self, path: Seq<u8>) -> Option<ChangeKind> {
        if self.exempt.contains(path) {
            None
        } else {
            self.pending_kind(path)
        }
    }

    /// The index after a local change.
    pub open spec fn written(self, entry: EntryView) -> IndexView {
        IndexView {
            seq: next_number(self.seq),
            records: self.records.insert(
                entry.path,
                RecordView { entry, seq: next_number(self.seq) },
            ),
            pending: if self.pending.contains_key(entry.path) {
                self.pending
            } else {
                self.pending.insert(entry.path, self.get(entry.path))
            },
            exempt: self.exempt.remove(entry.path),
            ..self
        }
    }

    /// What a local change is reported as.
    pub open spec fn change(self, entry: EntryView) -> ChangeView {
        ChangeView {
            kind: ChangeKind::step(self.seen_live(entry.path), !entry.deleted),
            record: RecordView { entry, seq: next_number(self.seq) },
        }
    }

    /// The entry that an observation becomes.
    pub open spec fn observed_entry(self, path: Seq<u8>, observed: Observed) -> EntryView {
        let o = recorded(observed);
        let touch = self.live(path) is Some && {
            let e = (self.live(path)->0).entry;
            e.kind == o.kind && e.hash == o.hash && e.executable == o.executable
        };
        EntryView {
            path,
            kind: o.kind,
            size: o.size,
            mtime_ns: o.mtime_ns,
            stamp: if touch {
                next_stamp(self.records[path].entry.stamp)
            } else {
                self.stamp_at(path, o.mtime_ns)
            },
            executable: o.executable,
            hash: o.hash,
            prev_hash: self.seen_hash(path),
            version: raise(self.version_at(path), self.own),
            deleted: false,
            modified_by: self.own,
            author_host: self.host,
        }
    }

    /// Whether an observation differs from the record.
    pub open spec fn differs(self, path: Seq<u8>, observed: Observed) -> bool {
        match self.live(path) {
            Some(r) => r.entry.observed() != recorded(observed),
            None => true,
        }
    }

    /// The index after an observation.
    pub open spec fn observe(self, path: Seq<u8>, observed: Observed) -> IndexView {
        if self.differs(path, observed) {
            self.written(self.observed_entry(path, observed))
        } else {
            self
        }
    }

    /// What an observation is reported as.
    pub open spec fn observe_change(self, path: Seq<u8>, observed: Observed) -> Option<ChangeView> {
        if self.differs(path, observed) {
            Some(self.change(self.observed_entry(path, observed)))
        } else {
            None
        }
    }

    /// The tombstone of a live entry.
    pub open spec fn tombstone(self, path: Seq<u8>, at_ns: i64) -> EntryView {
        EntryView {
            path,
            kind: self.records[path].entry.kind,
            size: 0,
            mtime_ns: at_ns,
            stamp: next_stamp(self.records[path].entry.stamp),
            executable: false,
            hash: ContentHash::empty(),
            prev_hash: self.seen_hash(path),
            version: raise(self.records[path].entry.version, self.own),
            deleted: true,
            modified_by: self.own,
            author_host: self.host,
        }
    }

    /// The index after nothing was found at a path.
    pub open spec fn observe_absent(self, path: Seq<u8>, at_ns: i64) -> IndexView {
        if self.live(path) is Some {
            self.written(self.tombstone(path, at_ns))
        } else {
            self
        }
    }

    /// What nothing found at a path is reported as.
    pub open spec fn absent_change(self, path: Seq<u8>, at_ns: i64) -> Option<ChangeView> {
        if self.live(path) is Some {
            Some(self.change(self.tombstone(path, at_ns)))
        } else {
            None
        }
    }

    /// The index after content turned out to exist nowhere.
    pub open spec fn observe_lost(self, path: Seq<u8>, at_ns: i64) -> IndexView {
        if self.live(path) is Some {
            let s = self.written(self.tombstone(path, at_ns));
            IndexView { exempt: s.exempt.insert(path), ..s }
        } else {
            self
        }
    }

    /// The entry of a conflict copy.
    pub open spec fn copy_entry(self, path: Seq<u8>, loser: EntryView) -> EntryView {
        EntryView {
            path,
            kind: loser.kind,
            size: loser.size,
            mtime_ns: loser.mtime_ns,
            stamp: self.stamp_at(path, loser.stamp),
            executable: loser.executable,
            hash: loser.hash,
            prev_hash: self.seen_hash(path),
            version: raise(self.version_at(path), self.own),
            deleted: false,
            modified_by: self.own,
            author_host: self.host,
        }
    }

    /// Whether a remote version may take the place of the record.
    pub open spec fn adoptable(self, entry: EntryView) -> bool {
        self.records.contains_key(entry.path) ==> crate::version::covers(
            entry.version,
            self.records[entry.path].entry.version,
        )
    }

    /// The index after a remote version was adopted.
    pub open spec fn adopted(self, entry: EntryView) -> IndexView {
        IndexView {
            seq: next_number(self.seq),
            records: self.records.insert(
                entry.path,
                RecordView { entry, seq: next_number(self.seq) },
            ),
            pending: self.pending.remove(entry.path),
            exempt: self.exempt.remove(entry.path),
            ..self
        }
    }

    /// The entry of a bump over other versions.
    pub open spec fn bumped_entry(
        self,
        path: Seq<u8>,
        over: Seq<Vector>,
        over_stamp: Option<i64>,
        at_ns: i64,
    ) -> EntryView {
        let version = raise(join_all(self.version_at(path), over), self.own);
        match self.get(path) {
            Some(r) => EntryView {
                version,
                prev_hash: self.seen_hash(path),
                stamp: next_stamp(
                    match over_stamp {
                        Some(s) => later(s, r.entry.stamp),
                        None => r.entry.stamp,
                    },
                ),
                modified_by: self.own,
                author_host: self.host,
                path,
                ..r.entry
            },
            None => EntryView {
                path,
                kind: Kind::File,
                size: 0,
                mtime_ns: at_ns,
                stamp: match over_stamp {
                    Some(s) => next_stamp(s),
                    None => at_ns,
                },
                executable: false,
                hash: ContentHash::empty(),
                prev_hash: self.seen_hash(path),
                version,
                deleted: true,
                modified_by: self.own,
                author_host: self.host,
            },
        }
    }

    /// Everything written so far has been announced.
    pub open spec fn announced(self) -> IndexView {
        IndexView {
            pending: Map::empty(),
            exempt: Set::empty(),
            announced_seq: self.seq,
            announced_tracked: self.tracked_count(),
            ..self
        }
    }

    /// The records once every pending change is undone.
    pub open spec fn reverted_records(self) -> Map<Seq<u8>, RecordView> {
        Map::new(
            |p: Seq<u8>| self.last_seen(p) is Some,
            |p: Seq<u8>| self.last_seen(p)->0,
        )
    }

    /// The index once every pending change is undone.
    pub open spec fn reverted(self) -> IndexView {
        IndexView {
            records: self.reverted_records(),
            pending: Map::empty(),
            exempt: Set::empty(),
            ..self
        }
    }

    /// What undoing a pending change reports.
    pub open spec fn reverted_at(self, path: Seq<u8>) -> RevertedView {
        RevertedView {
            path,
            current: match self.get(path) {
                Some(r) => Some(r.entry),
                None => None,
            },
            restored: self.pending[path],
        }
    }

    /// What was received from a peer.
    pub open spec fn watermark(self, peer: NodeId) -> WatermarkView {
        if self.peer_seq.contains_key(peer) {
            self.peer_seq[peer]
        } else {
            WatermarkView::zero()
        }
    }

    /// The index after a peer's range arrived.
    pub open spec fn received(self, peer: NodeId, low: u64, high: u64) -> IndexView {
        IndexView {
            peer_seq: self.peer_seq.insert(peer, self.watermark(peer).received(low, high)),
            ..self
        }
    }

    /// What was announced at a path.
    pub open spec fn announced_at(self, path: Seq<u8>) -> Option<RecordView> {
        if !self.records.contains_key(path) {
            None
        } else if self.pending.contains_key(path) {
            self.pending[path]
        } else if self.records[path].seq <= self.announced_seq {
            Some(self.records[path])
        } else {
            None
        }
    }

    /// Announced records above a sequence number, by their sequence numbers.
    pub open spec fn announced_keys(self, after: u64) -> Set<(u64, Seq<u8>)> {
        Set::new(
            |k: (u64, Seq<u8>)|
                self.announced_at(k.1) is Some && (self.announced_at(k.1)->0).seq == k.0 && k.0
                    > after,
        )
    }

    /// Announced records above a sequence number, in the order of those.
    pub open spec fn announced_since(self, after: u64) -> Seq<RecordView> {
        let ks = in_order(self.announced_keys(after));
        Seq::new(ks.len(), |i: int| self.announced_at(ks[i].1)->0)
    }

    /// Unannounced records by their sequence numbers.
    pub open spec fn unannounced_keys(self) -> Set<(u64, Seq<u8>)> {
        Set::new(
            |k: (u64, Seq<u8>)|
                self.records.contains_key(k.1) && self.records[k.1].seq == k.0 && k.0
                    > self.announced_seq,
        )
    }

    /// Unannounced records in the order of their sequence numbers, each with the kind of change
    /// that it counts as.
    pub open spec fn unannounced(self) -> Seq<(RecordView, Option<ChangeKind>)> {
        let ks = in_order(self.unannounced_keys());
        Seq::new(ks.len(), |i: int| (self.records[ks[i].1], self.counted_kind(ks[i].1)))
    }
}

// ---- the index --------------------------------------------------------------

/// The per-folder index for one machine.
#[derive(Clone, Debug, PartialEq, Eq)]
pub struct Index {
    own: NodeId,
    host: HostName,
    records: OrdMap<RelPath, IndexRecord>,
    seq: u64,
    peer_seq: OrdMap<NodeId, Watermark>,
    pending: OrdMap<RelPath, Option<IndexRecord>>,
    exempt: OrdSet<RelPath>,
    announced_seq: u64,
    announced_tracked: usize,
}

impl View for Index {
    type V = IndexView;

    closed spec fn view(&self) -> IndexView {
        IndexView {
            own: self.own,
            host: self.host@,
            records: self.records@,
            seq: self.seq,
            peer_seq: self.peer_seq@,
            pending: self.pending@,
            exempt: self.exempt@,
            announced_seq: self.announced_seq,
            announced_tracked: self.announced_tracked as nat,
        }
    }
}

impl DeepView for Index {
    type V = IndexView;

    open spec fn deep_view(&self) -> IndexView {
        self.view()
    }
}

/// What an index is made of, to store it and to build it again.
#[derive(Clone, Debug, PartialEq, Eq)]
pub struct IndexParts {
    pub own: NodeId,
    pub host: HostName,
    /// One record a path, tombstones too.
    pub records: OrdMap<RelPath, IndexRecord>,
    /// The last sequence number handed out.
    pub seq: u64,
    /// What was received from each peer.
    pub peer_seq: OrdMap<NodeId, Watermark>,
    /// Local changes not yet announced, each with the record that peers last saw.
    pub pending: OrdMap<RelPath, Option<IndexRecord>>,
    /// Pending changes that count for nothing.
    pub exempt: OrdSet<RelPath>,
    pub announced_seq: u64,
    pub announced_tracked: usize,
}

impl View for IndexParts {
    type V = IndexView;

    open spec fn view(&self) -> IndexView {
        IndexView {
            own: self.own,
            host: self.host@,
            records: self.records@,
            seq: self.seq,
            peer_seq: self.peer_seq@,
            pending: self.pending@,
            exempt: self.exempt@,
            announced_seq: self.announced_seq,
            announced_tracked: self.announced_tracked as nat,
        }
    }
}

impl Watermark {
    /// A watermark from what it is made of.
    pub fn from_parts(contiguous: u64, ranges: OrdMap<u64, u64>) -> (r: Watermark)
        ensures
            r@ == (WatermarkView { contiguous, ranges: ranges@ }),
    {
        Watermark { contiguous, ranges }
    }

    /// What a watermark is made of: every number up to the first has been received, and the
    /// ranges above a gap by where they start.
    pub fn into_parts(self) -> (r: (u64, OrdMap<u64, u64>))
        ensures
            r.0 == self@.contiguous,
            r.1@ == self@.ranges,
    {
        (self.contiguous, self.ranges)
    }
}

impl Index {
    /// An index from what it is made of, as it was stored.
    pub fn from_parts(parts: IndexParts) -> (r: Index)
        ensures
            r@ == parts@,
    {
        Index {
            own: parts.own,
            host: parts.host,
            records: parts.records,
            seq: parts.seq,
            peer_seq: parts.peer_seq,
            pending: parts.pending,
            exempt: parts.exempt,
            announced_seq: parts.announced_seq,
            announced_tracked: parts.announced_tracked,
        }
    }

    /// What the index is made of.
    pub fn into_parts(self) -> (r: IndexParts)
        ensures
            r@ == self@,
    {
        IndexParts {
            own: self.own,
            host: self.host,
            records: self.records,
            seq: self.seq,
            peer_seq: self.peer_seq,
            pending: self.pending,
            exempt: self.exempt,
            announced_seq: self.announced_seq,
            announced_tracked: self.announced_tracked,
        }
    }

    /// An empty index for this machine.
    pub fn new(own: NodeId, host: HostName) -> (r: Index)
        ensures
            r@ == IndexView::initial(own, host@),
    {
        Index {
            own,
            host,
            records: OrdMap::new(),
            seq: 0,
            peer_seq: OrdMap::new(),
            pending: OrdMap::new(),
            exempt: OrdSet::new(),
            announced_seq: 0,
            announced_tracked: 0,
        }
    }

    /// This machine's node identifier.
    pub fn own(&self) -> (r: NodeId)
        ensures
            r == self@.own,
    {
        self.own
    }

    /// The record at a path, tombstones too.
    pub fn get(&self, path: &RelPath) -> (r: Option<&IndexRecord>)
        ensures
            r.deep_view() == self@.get(path@),
    {
        self.records.get(path)
    }

    /// The live entry at a path.
    pub fn live(&self, path: &RelPath) -> (r: Option<&IndexRecord>)
        ensures
            r.deep_view() == self@.live(path@),
    {
        match self.records.get(path) {
            Some(r) => if r.entry.deleted {
                None
            } else {
                Some(r)
            },
            None => None,
        }
    }

    /// Where content with this hash may be had from, for a request at `path`: the record at
    /// `path` first, then every other live file or symlink with the hash, in path order.
    /// Directories and tombstones serve nothing.
    pub fn locate(&self, path: &RelPath, hash: &ContentHash) -> (r: Vec<&RelPath>)
        ensures
            r.deep_view() == if *hash == ContentHash::empty() {
                Seq::empty()
            } else {
                (match self@.get(path@) {
                    Some(rec) => if holds(rec, *hash) {
                        seq![rec.entry.path]
                    } else {
                        Seq::empty()
                    },
                    None => Seq::empty(),
                }) + holding_among(self@.records, self@.paths(), *hash, path@)
            },
    {
        let mut out: Vec<&RelPath> = Vec::new();
        if *hash == ContentHash::empty() {
            assert(out.deep_view() =~= Seq::empty());
            return out;
        }
        if let Some(r) = self.records.get(path) {
            if !r.entry.deleted && r.entry.kind != Kind::Dir && r.entry.hash == *hash {
                out.push(&r.entry.path);
            }
        }
        let ghost here = out.deep_view();
        assert(here =~= match self@.get(path@) {
            Some(rec) => if holds(rec, *hash) {
                seq![rec.entry.path]
            } else {
                Seq::empty()
            },
            None => Seq::empty(),
        });
        let n: usize = self.records.len();
        let ghost ks = self@.paths();
        let mut i: usize = 0;
        assert(ks.take(0) =~= Seq::empty());
        assert(out.deep_view() =~= here + holding_among(self@.records, ks.take(0), *hash, path@));
        while i < n
            invariant
                i <= n,
                n == self.records@.dom().len(),
                n == ks.len(),
                self@.records == self.records@,
                ks == self@.paths(),
                out.deep_view() == here + holding_among(
                    self@.records,
                    ks.take(i as int),
                    *hash,
                    path@,
                ),
            decreases n - i,
        {
            let r = self.records.value_at(i);
            let k = self.records.key_at(i);
            let ghost before = out.deep_view();
            assert(ks.take(i + 1).drop_last() =~= ks.take(i as int));
            if !k.same(path) && !r.entry.deleted && r.entry.kind != Kind::Dir && r.entry.hash
                == *hash {
                out.push(&r.entry.path);
                assert(out.deep_view() =~= before.push(r.entry.path@));
            }
            assert(out.deep_view() =~= here + holding_among(
                self@.records,
                ks.take(i + 1),
                *hash,
                path@,
            ));
            i = i + 1;
        }
        assert(ks.take(i as int) =~= ks);
        out
    }

    /// Every record in path order, tombstones too.
    pub fn records(&self) -> (r: Vec<&IndexRecord>)
        ensures
            r.deep_view() == Seq::new(
                self@.paths().len(),
                |i: int| self@.records[self@.paths()[i]],
            ),
    {
        let mut out: Vec<&IndexRecord> = Vec::new();
        let n: usize = self.records.len();
        let mut i: usize = 0;
        while i < n
            invariant
                i <= n,
                n == self.records@.dom().len(),
                n == self@.paths().len(),
                self@.records == self.records@,
                out.len() == i,
                forall|j: int|
                    0 <= j < i ==> (#[trigger] out@[j]).deep_view()
                        == self@.records[self@.paths()[j]],
            decreases n - i,
        {
            out.push(self.records.value_at(i));
            i = i + 1;
        }
        assert(out.deep_view() =~= Seq::new(
            self@.paths().len(),
            |i: int| self@.records[self@.paths()[i]],
        ));
        out
    }

    /// Every live record in path order.
    pub fn live_records(&self) -> (r: Vec<&IndexRecord>)
        ensures
            r.deep_view() == live_among(self@.records, self@.paths()),
    {
        let mut out: Vec<&IndexRecord> = Vec::new();
        let n: usize = self.records.len();
        let ghost ks = self@.paths();
        let mut i: usize = 0;
        assert(ks.take(0) =~= Seq::empty());
        assert(out.deep_view() =~= live_among(self@.records, ks.take(0)));
        while i < n
            invariant
                i <= n,
                n == self.records@.dom().len(),
                n == ks.len(),
                self@.records == self.records@,
                ks == self@.paths(),
                out.deep_view() == live_among(self@.records, ks.take(i as int)),
            decreases n - i,
        {
            let r = self.records.value_at(i);
            let ghost before = out.deep_view();
            assert(ks.take(i + 1).drop_last() =~= ks.take(i as int));
            if !r.entry.deleted {
                out.push(r);
                assert(out.deep_view() =~= before.push(r@));
            }
            i = i + 1;
        }
        assert(ks.take(i as int) =~= ks);
        out
    }

    /// Number of tracked entries: live and not a directory.
    pub fn tracked_count(&self) -> (r: usize)
        ensures
            r == self@.tracked_count(),
    {
        let n: usize = self.records.len();
        let ghost ks = self@.paths();
        let mut count: usize = 0;
        let mut i: usize = 0;
        assert(ks.take(0) =~= Seq::empty());
        while i < n
            invariant
                i <= n,
                count <= i,
                n == self.records@.dom().len(),
                n == ks.len(),
                self@.records == self.records@,
                ks == self@.paths(),
                count == tracked_among(self@.records, ks.take(i as int)),
            decreases n - i,
        {
            let r = self.records.value_at(i);
            assert(ks.take(i + 1).drop_last() =~= ks.take(i as int));
            if !r.entry.deleted && r.entry.kind != Kind::Dir {
                count = count + 1;
            }
            i = i + 1;
        }
        assert(ks.take(i as int) =~= ks);
        count
    }

    /// Total number of records, tombstones too.
    pub fn len(&self) -> (r: usize)
        ensures
            r == self@.records.dom().len(),
            self@.records.dom().finite(),
    {
        self.records.len()
    }

    /// True if the index has no records at all.
    pub fn is_empty(&self) -> (r: bool)
        ensures
            r == (self@.records == Map::<Seq<u8>, RecordView>::empty()),
    {
        self.records.is_empty()
    }

    /// The last sequence number written.
    pub fn seq(&self) -> (r: u64)
        ensures
            r == self@.seq,
    {
        self.seq
    }

    /// Records written after `after`, in path order.
    pub fn records_since(&self, after: u64) -> (r: Vec<&IndexRecord>)
        ensures
            r.deep_view() == since_among(self@.records, self@.paths(), after),
    {
        let mut out: Vec<&IndexRecord> = Vec::new();
        let n: usize = self.records.len();
        let ghost ks = self@.paths();
        let mut i: usize = 0;
        assert(ks.take(0) =~= Seq::empty());
        assert(out.deep_view() =~= since_among(self@.records, ks.take(0), after));
        while i < n
            invariant
                i <= n,
                n == self.records@.dom().len(),
                n == ks.len(),
                self@.records == self.records@,
                ks == self@.paths(),
                out.deep_view() == since_among(self@.records, ks.take(i as int), after),
            decreases n - i,
        {
            let r = self.records.value_at(i);
            let ghost before = out.deep_view();
            assert(ks.take(i + 1).drop_last() =~= ks.take(i as int));
            if r.seq > after {
                out.push(r);
                assert(out.deep_view() =~= before.push(r@));
            }
            i = i + 1;
        }
        assert(ks.take(i as int) =~= ks);
        out
    }
}

impl Index {
    /// Every announced record with a sequence number above `after`, in the order of those. For a
    /// path with a pending change that is the record peers last saw, so nothing pending leaks.
    pub fn announced_since(&self, after: u64) -> (r: Vec<&IndexRecord>)
        ensures
            r.deep_view() == self@.announced_since(after),
    {
        let mut order: OrdSet<(u64, RelPath)> = OrdSet::new();
        let n: usize = self.records.len();
        let ghost ks = self@.paths();
        let mut i: usize = 0;
        while i < n
            invariant
                i <= n,
                n == self.records@.dom().len(),
                n == ks.len(),
                self@.records == self.records@,
                self@.pending == self.pending@,
                self@.announced_seq == self.announced_seq,
                ks == self@.paths(),
                forall|k: (u64, Seq<u8>)| #[trigger]
                    order@.contains(k) <==> self@.announced_keys(after).contains(k) && ks.take(
                        i as int,
                    ).contains(k.1),
            decreases n - i,
        {
            let path = self.records.key_at(i);
            let record = self.records.value_at(i);
            let ghost before = order@;
            let announced: Option<&IndexRecord> = match self.pending.get(path) {
                Some(seen) => seen.as_ref(),
                None => if record.seq <= self.announced_seq {
                    Some(record)
                } else {
                    None
                },
            };
            assert(announced.deep_view() == self@.announced_at(path@));
            if let Some(r) = announced {
                if r.seq > after {
                    order.insert((r.seq, path.dup()));
                }
            }
            proof {
                let t = ks.take(i as int);
                let u = ks.take(i + 1);
                assert(u =~= t.push(path@));
                assert forall|k: (u64, Seq<u8>)| #[trigger]
                    order@.contains(k) <==> self@.announced_keys(after).contains(k) && u.contains(
                        k.1,
                    ) by {
                    assert(u.contains(k.1) <==> t.contains(k.1) || k.1 == path@) by {
                        if t.contains(k.1) {
                            let j = choose|j: int| 0 <= j < t.len() && t[j] == k.1;
                            assert(u[j] == k.1);
                        }
                        if k.1 == path@ {
                            assert(u[i as int] == k.1);
                        }
                    }
                    assert(before.contains(k) <==> self@.announced_keys(after).contains(k)
                        && t.contains(k.1));
                }
            }
            i = i + 1;
        }
        proof {
            lemma_in_order_exists(self@.records.dom());
            assert(ks.take(i as int) =~= ks);
            assert forall|k: (u64, Seq<u8>)| #[trigger]
                order@.contains(k) <==> self@.announced_keys(after).contains(k) by {
                if self@.announced_keys(after).contains(k) {
                    assert(self@.records.dom().contains(k.1));
                    assert(ks.contains(k.1));
                }
            }
            assert(order@ =~= self@.announced_keys(after));
        }
        let ghost sorted = in_order(order@);
        let mut out: Vec<&IndexRecord> = Vec::new();
        let m: usize = order.len();
        let mut j: usize = 0;
        while j < m
            invariant
                j <= m,
                m == order@.len(),
                m == sorted.len(),
                sorted == in_order(order@),
                order@ == self@.announced_keys(after),
                self@.records == self.records@,
                self@.pending == self.pending@,
                out.len() == j,
                forall|x: int|
                    0 <= x < j ==> (#[trigger] out@[x]).deep_view() == self@.announced_at(
                        sorted[x].1,
                    )->0,
            decreases m - j,
        {
            let key = order.at(j);
            assert(self@.announced_keys(after).contains(key.key()));
            match self.pending.get(&key.1) {
                Some(seen) => match seen {
                    Some(r) => {
                        out.push(r);
                    },
                    None => {},
                },
                None => match self.records.get(&key.1) {
                    Some(r) => {
                        out.push(r);
                    },
                    None => {},
                },
            }
            j = j + 1;
        }
        assert(out.deep_view() =~= self@.announced_since(after));
        out
    }

    /// Every sequence number of `peer` up to this one has been received, 0 if none.
    pub fn peer_seq(&self, peer: NodeId) -> (r: u64)
        ensures
            r == self@.watermark(peer).contiguous,
    {
        match self.peer_seq.get(&peer) {
            Some(w) => w.contiguous,
            None => 0,
        }
    }

    /// True if something of `peer` has arrived while something below it has not.
    pub fn peer_has_gap(&self, peer: NodeId) -> (r: bool)
        ensures
            r == (self@.watermark(peer).ranges != Map::<u64, u64>::empty()),
    {
        match self.peer_seq.get(&peer) {
            Some(w) => !w.ranges.is_empty(),
            None => false,
        }
    }

    /// A batch from `peer` that covers `(seq_low, seq_high]` arrived. The watermark advances when
    /// the range starts at or below it, and then takes in every range that it reaches; a range
    /// above a gap is remembered until the gap fills.
    pub fn received_range(&mut self, peer: NodeId, seq_low: u64, seq_high: u64)
        ensures
            final(self)@ == old(self)@.received(peer, seq_low, seq_high),
    {
        let mut w = match self.peer_seq.get(&peer) {
            Some(w) => w.dup(),
            None => Watermark { contiguous: 0, ranges: OrdMap::new() },
        };
        assert(w@ == self@.watermark(peer));
        w.receive(seq_low, seq_high);
        self.peer_seq.insert(peer, w);
    }

    /// Local changes not yet announced, in path order, with the kind of each.
    pub fn pending(&self) -> (r: Vec<(&IndexRecord, ChangeKind)>)
        ensures
            r.deep_view() == pending_among(self@, in_order(self@.pending.dom())),
    {
        let mut out: Vec<(&IndexRecord, ChangeKind)> = Vec::new();
        let n: usize = self.pending.len();
        let ghost ks = in_order(self@.pending.dom());
        let mut i: usize = 0;
        assert(ks.take(0) =~= Seq::empty());
        assert(out.deep_view() =~= pending_among(self@, ks.take(0)));
        while i < n
            invariant
                i <= n,
                n == self.pending@.dom().len(),
                n == ks.len(),
                self@.records == self.records@,
                self@.pending == self.pending@,
                ks == in_order(self@.pending.dom()),
                out.deep_view() == pending_among(self@, ks.take(i as int)),
            decreases n - i,
        {
            let path = self.pending.key_at(i);
            let announced = self.pending.value_at(i);
            let ghost before = out.deep_view();
            assert(ks.take(i + 1).drop_last() =~= ks.take(i as int));
            if let Some(r) = self.records.get(path) {
                let kind = ChangeKind::between(Index::is_live(announced), !r.entry.deleted);
                out.push((r, kind));
                assert(out.deep_view() =~= before.push((r@, kind)));
            }
            i = i + 1;
        }
        assert(ks.take(i as int) =~= ks);
        out
    }

    /// True if what peers last saw is a live entry.
    fn is_live(announced: &Option<IndexRecord>) -> (r: bool)
        ensures
            r == (announced.deep_view() is Some && !(announced.deep_view()->0).entry.deleted),
    {
        match announced {
            Some(r) => !r.entry.deleted,
            None => false,
        }
    }

    /// True if `path` has an unannounced local change.
    pub fn is_pending(&self, path: &RelPath) -> (r: bool)
        ensures
            r == self@.pending.contains_key(path@),
    {
        self.pending.contains_key(path)
    }

    /// Paths with an unannounced local change, in path order.
    pub fn pending_paths(&self) -> (r: Vec<RelPath>)
        ensures
            r.deep_view() == in_order(self@.pending.dom()),
            self@.pending.dom().finite(),
    {
        let mut out: Vec<RelPath> = Vec::new();
        let n: usize = self.pending.len();
        let mut i: usize = 0;
        while i < n
            invariant
                i <= n,
                n == self.pending@.dom().len(),
                n == in_order(self.pending@.dom()).len(),
                out.len() == i,
                forall|j: int|
                    0 <= j < i ==> (#[trigger] out@[j]).deep_view() == in_order(
                        self.pending@.dom(),
                    )[j],
            decreases n - i,
        {
            out.push(self.pending.key_at(i).dup());
            i = i + 1;
        }
        assert(out.deep_view() =~= in_order(self@.pending.dom()));
        out
    }

    /// Number of paths with an unannounced local change.
    pub fn pending_count(&self) -> (r: usize)
        ensures
            r == self@.pending.dom().len(),
            self@.pending.dom().finite(),
    {
        self.pending.len()
    }

    /// The kind of the pending local change at `path`, if any.
    pub fn pending_kind(&self, path: &RelPath) -> (r: Option<ChangeKind>)
        ensures
            r == self@.pending_kind(path@),
    {
        match self.pending.get(path) {
            Some(announced) => match self.records.get(path) {
                Some(r) => Some(
                    ChangeKind::between(Index::is_live(announced), !r.entry.deleted),
                ),
                None => None,
            },
            None => None,
        }
    }

    /// Tracked entries at the last announcement.
    pub fn announced_tracked(&self) -> (r: usize)
        ensures
            r == self@.announced_tracked,
    {
        self.announced_tracked
    }

    /// Sequence number of the last announcement.
    pub fn announced_seq(&self) -> (r: u64)
        ensures
            r == self@.announced_seq,
    {
        self.announced_seq
    }

    /// Every record written since the last announcement, in the order of the sequence numbers,
    /// with the kind of local change that it counts as. Adopted records count as none, and so do
    /// deletions of content that exists nowhere.
    pub fn unannounced(&self) -> (r: Vec<(&IndexRecord, Option<ChangeKind>)>)
        ensures
            r.deep_view() == self@.unannounced(),
            r.len() == in_order(self@.unannounced_keys()).len(),
            self@.unannounced_keys().finite(),
    {
        let mut order: OrdSet<(u64, RelPath)> = OrdSet::new();
        let n: usize = self.records.len();
        let ghost ks = self@.paths();
        let mut i: usize = 0;
        while i < n
            invariant
                i <= n,
                n == self.records@.dom().len(),
                n == ks.len(),
                self@.records == self.records@,
                self@.announced_seq == self.announced_seq,
                ks == self@.paths(),
                forall|k: (u64, Seq<u8>)| #[trigger]
                    order@.contains(k) <==> self@.unannounced_keys().contains(k) && ks.take(
                        i as int,
                    ).contains(k.1),
            decreases n - i,
        {
            let path = self.records.key_at(i);
            let record = self.records.value_at(i);
            let ghost before = order@;
            if record.seq > self.announced_seq {
                order.insert((record.seq, path.dup()));
            }
            proof {
                let t = ks.take(i as int);
                let u = ks.take(i + 1);
                assert(u =~= t.push(path@));
                assert forall|k: (u64, Seq<u8>)| #[trigger]
                    order@.contains(k) <==> self@.unannounced_keys().contains(k) && u.contains(
                        k.1,
                    ) by {
                    assert(u.contains(k.1) <==> t.contains(k.1) || k.1 == path@) by {
                        if t.contains(k.1) {
                            let j = choose|j: int| 0 <= j < t.len() && t[j] == k.1;
                            assert(u[j] == k.1);
                        }
                        if k.1 == path@ {
                            assert(u[i as int] == k.1);
                        }
                    }
                    assert(before.contains(k) <==> self@.unannounced_keys().contains(k)
                        && t.contains(k.1));
                }
            }
            i = i + 1;
        }
        proof {
            lemma_in_order_exists(self@.records.dom());
            assert(ks.take(i as int) =~= ks);
            assert forall|k: (u64, Seq<u8>)| #[trigger]
                order@.contains(k) <==> self@.unannounced_keys().contains(k) by {
                if self@.unannounced_keys().contains(k) {
                    assert(self@.records.dom().contains(k.1));
                    assert(ks.contains(k.1));
                }
            }
            assert(order@ =~= self@.unannounced_keys());
        }
        let ghost sorted = in_order(order@);
        let mut out: Vec<(&IndexRecord, Option<ChangeKind>)> = Vec::new();
        let m: usize = order.len();
        let mut j: usize = 0;
        while j < m
            invariant
                j <= m,
                m == order@.len(),
                m == sorted.len(),
                sorted == in_order(order@),
                order@ == self@.unannounced_keys(),
                self@.records == self.records@,
                self@.exempt == self.exempt@,
                out.len() == j,
                forall|x: int|
                    0 <= x < j ==> (#[trigger] out@[x]).deep_view() == (
                        self@.records[sorted[x].1],
                        self@.counted_kind(sorted[x].1),
                    ),
            decreases m - j,
        {
            let key = order.at(j);
            assert(self@.unannounced_keys().contains(key.key()));
            let kind: Option<ChangeKind> = if self.exempt.contains(&key.1) {
                None
            } else {
                self.pending_kind(&key.1)
            };
            if let Some(r) = self.records.get(&key.1) {
                out.push((r, kind));
                assert(out@[j as int].deep_view() == (r@, kind));
            }
            j = j + 1;
        }
        assert(out.deep_view() =~= self@.unannounced());
        out
    }

    /// Everything written so far has been announced.
    pub fn mark_announced(&mut self)
        ensures
            final(self)@ == old(self)@.announced(),
    {
        let count: usize = self.tracked_count();
        self.pending = OrdMap::new();
        self.exempt = OrdSet::new();
        self.announced_seq = self.seq;
        self.announced_tracked = count;
    }

    /// The sequence number for the next record.
    fn next_seq(&self) -> (r: u64)
        ensures
            r == next_number(self@.seq),
    {
        if self.seq < u64::MAX {
            self.seq + 1
        } else {
            self.seq
        }
    }

    /// The hash of what peers last saw at `path`.
    fn announced_hash(&self, path: &RelPath) -> (r: ContentHash)
        ensures
            r == self@.seen_hash(path@),
    {
        match self.pending.get(path) {
            Some(announced) => match announced {
                Some(r) => r.entry.hash,
                None => ContentHash::empty(),
            },
            None => match self.records.get(path) {
                Some(r) => r.entry.hash,
                None => ContentHash::empty(),
            },
        }
    }

    /// Records a local change. If the path has no pending change yet, the record being replaced
    /// is what peers last saw, and is kept.
    fn write(&mut self, entry: Entry) -> (r: LocalChange)
        ensures
            final(self)@ == old(self)@.written(entry@),
            r@ == old(self)@.change(entry@),
    {
        let seq: u64 = self.next_seq();
        let path = entry.path.dup();
        let announced_live = match self.pending.get(&path) {
            Some(announced) => Index::is_live(announced),
            None => {
                let previous: Option<IndexRecord> = match self.records.get(&path) {
                    Some(r) => Some(r.dup()),
                    None => None,
                };
                let live = Index::is_live(&previous);
                self.pending.insert(path.dup(), previous);
                live
            },
        };
        let kind = ChangeKind::between(announced_live, !entry.deleted);
        let record = IndexRecord { entry, seq };
        self.exempt.remove(&path);
        self.records.insert(path, record.dup());
        self.seq = seq;
        LocalChange { kind, record }
    }

    /// The host saw `observed` at `path`. Returns the local change if it differs from the record.
    /// A re-created file dominates its own deletion.
    pub fn observe(&mut self, path: RelPath, observed: Observed) -> (r: Option<LocalChange>)
        ensures
            final(self)@ == old(self)@.observe(path@, observed),
            r.deep_view() == old(self)@.observe_change(path@, observed),
    {
        let o = observed.normalised();
        let mtime_ns: i64 = if o.kind == Kind::File {
            o.mtime_ns
        } else {
            0
        };
        let seen = Observed {
            kind: o.kind,
            size: o.size,
            mtime_ns,
            executable: o.executable,
            hash: o.hash,
        };
        assert(seen == recorded(observed));
        let prev_hash = self.announced_hash(&path);
        let (version, stamp) = match self.records.get(&path) {
            Some(r) => {
                let next: i64 = crate::time::add_i64(r.entry.stamp, 1);
                let mut stamp: i64 = if mtime_ns >= next {
                    mtime_ns
                } else {
                    next
                };
                if !r.entry.deleted {
                    if r.entry.observed() == seen {
                        return None;
                    }
                    if r.entry.kind == seen.kind && r.entry.hash == seen.hash && r.entry.executable
                        == seen.executable {
                        stamp = next;
                    }
                }
                (r.entry.version.incremented(self.own), stamp)
            },
            None => (Version::empty().incremented(self.own), mtime_ns),
        };
        let entry = Entry {
            path,
            kind: seen.kind,
            size: seen.size,
            mtime_ns,
            stamp,
            executable: seen.executable,
            hash: seen.hash,
            prev_hash,
            version,
            deleted: false,
            modified_by: self.own,
            author_host: self.host.dup(),
        };
        assert(entry@ == self@.observed_entry(path@, observed));
        Some(self.write(entry))
    }

    /// The tombstone of the live entry at a path.
    fn tombstone(&self, path: &RelPath, at_ns: i64) -> (r: Option<Entry>)
        ensures
            r is Some == self@.live(path@) is Some,
            r is Some ==> (r->0)@ == self@.tombstone(path@, at_ns),
    {
        match self.live(path) {
            Some(previous) => Some(
                Entry {
                    path: path.dup(),
                    kind: previous.entry.kind,
                    size: 0,
                    mtime_ns: at_ns,
                    stamp: crate::time::add_i64(previous.entry.stamp, 1),
                    executable: false,
                    hash: ContentHash::empty(),
                    prev_hash: self.announced_hash(path),
                    version: previous.entry.version.incremented(self.own),
                    deleted: true,
                    modified_by: self.own,
                    author_host: self.host.dup(),
                },
            ),
            None => None,
        }
    }

    /// The host found nothing at `path`. If a live entry was there, it becomes a tombstone dated
    /// `at_ns`; otherwise nothing happens.
    pub fn observe_absent(&mut self, path: &RelPath, at_ns: i64) -> (r: Option<LocalChange>)
        ensures
            final(self)@ == old(self)@.observe_absent(path@, at_ns),
            r.deep_view() == old(self)@.absent_change(path@, at_ns),
    {
        match self.tombstone(path, at_ns) {
            Some(entry) => Some(self.write(entry)),
            None => None,
        }
    }

    /// The content recorded at `path` exists nowhere: as [`Index::observe_absent`], and the
    /// deletion counts for nothing when it is announced.
    pub fn observe_absent_unrecoverable(&mut self, path: &RelPath, at_ns: i64) -> (r: Option<
        LocalChange,
    >)
        ensures
            final(self)@ == old(self)@.observe_lost(path@, at_ns),
            r.deep_view() == old(self)@.absent_change(path@, at_ns),
    {
        match self.tombstone(path, at_ns) {
            Some(entry) => {
                let change = self.write(entry);
                self.exempt.insert(path.dup());
                Some(change)
            },
            None => None,
        }
    }

    /// The version and the stamp of a new local entry at a path, last edited at `edited`.
    fn fresh(&self, path: &RelPath, edited: i64) -> (r: (Version, i64))
        ensures
            r.0@ == raise(self@.version_at(path@), self@.own),
            r.1 == self@.stamp_at(path@, edited),
    {
        match self.records.get(path) {
            Some(r) => {
                let next: i64 = crate::time::add_i64(r.entry.stamp, 1);
                let stamp: i64 = if edited >= next {
                    edited
                } else {
                    next
                };
                (r.entry.version.incremented(self.own), stamp)
            },
            None => (Version::empty().incremented(self.own), edited),
        }
    }

    /// The conflict copy of a displaced losing file: its fields at `path`, with a fresh version of
    /// this machine's. A local change.
    pub fn record_conflict_copy(&mut self, path: RelPath, loser: &Entry) -> (r: LocalChange)
        ensures
            final(self)@ == old(self)@.written(old(self)@.copy_entry(path@, loser@)),
            r@ == old(self)@.change(old(self)@.copy_entry(path@, loser@)),
    {
        let (version, stamp) = self.fresh(&path, loser.stamp);
        let prev_hash = self.announced_hash(&path);
        let entry = Entry {
            path,
            kind: loser.kind,
            size: loser.size,
            mtime_ns: loser.mtime_ns,
            stamp,
            executable: loser.executable,
            hash: loser.hash,
            prev_hash,
            version,
            deleted: false,
            modified_by: self.own,
            author_host: self.host.dup(),
        };
        self.write(entry)
    }

    /// A remote entry is on disk, and the index takes it over unchanged with a new sequence
    /// number. `None`, and nothing changes, if its version is not at least that of the record.
    pub fn adopt(&mut self, entry: Entry) -> (r: Option<IndexRecord>)
        ensures
            r is Some == old(self)@.adoptable(entry@),
            r is Some ==> final(self)@ == old(self)@.adopted(entry@) && (r->0)@ == (RecordView {
                entry: entry@,
                seq: next_number(old(self)@.seq),
            }),
            r is None ==> final(self)@ == old(self)@,
    {
        if let Some(r) = self.records.get(&entry.path) {
            if !entry.version.dominates_or_equals(&r.entry.version) {
                return None;
            }
        }
        let seq: u64 = self.next_seq();
        let path = entry.path.dup();
        self.pending.remove(&path);
        self.exempt.remove(&path);
        let record = IndexRecord { entry, seq };
        self.records.insert(path, record.dup());
        self.seq = seq;
        Some(record)
    }

    /// A local change at `path` whose version dominates the record and every version in `over`,
    /// and whose stamp is above theirs, with content unchanged. With no record the result is a
    /// tombstone dated `at_ns`.
    pub fn bump_over(
        &mut self,
        path: &RelPath,
        over: &[Version],
        over_stamp: Option<i64>,
        at_ns: i64,
    ) -> (r: LocalChange)
        ensures
            final(self)@ == old(self)@.written(
                old(self)@.bumped_entry(path@, vectors(over@), over_stamp, at_ns),
            ),
            r@ == old(self)@.change(
                old(self)@.bumped_entry(path@, vectors(over@), over_stamp, at_ns),
            ),
    {
        let mut version = match self.records.get(path) {
            Some(r) => r.entry.version.dup(),
            None => Version::empty(),
        };
        let mut i: usize = 0;
        let ghost vs = vectors(over@);
        assert(vs.take(0) =~= Seq::empty());
        while i < over.len()
            invariant
                i <= over.len(),
                vs == vectors(over@),
                version@ == join_all(self@.version_at(path@), vs.take(i as int)),
            decreases over.len() - i,
        {
            assert(vs.take(i + 1).drop_last() =~= vs.take(i as int));
            version = version.merge(&over[i]);
            i = i + 1;
        }
        assert(vs.take(i as int) =~= vs);
        let version = version.incremented(self.own);
        let prev_hash = self.announced_hash(path);
        let entry = match self.records.get(path) {
            Some(r) => {
                let base: i64 = match over_stamp {
                    Some(s) => if s >= r.entry.stamp {
                        s
                    } else {
                        r.entry.stamp
                    },
                    None => r.entry.stamp,
                };
                Entry {
                    path: path.dup(),
                    kind: r.entry.kind,
                    size: r.entry.size,
                    mtime_ns: r.entry.mtime_ns,
                    stamp: crate::time::add_i64(base, 1),
                    executable: r.entry.executable,
                    hash: r.entry.hash,
                    prev_hash,
                    version,
                    deleted: r.entry.deleted,
                    modified_by: self.own,
                    author_host: self.host.dup(),
                }
            },
            None => {
                let stamp: i64 = match over_stamp {
                    Some(s) => crate::time::add_i64(s, 1),
                    None => at_ns,
                };
                Entry {
                    path: path.dup(),
                    kind: Kind::File,
                    size: 0,
                    mtime_ns: at_ns,
                    stamp,
                    executable: false,
                    hash: ContentHash::empty(),
                    prev_hash,
                    version,
                    deleted: true,
                    modified_by: self.own,
                    author_host: self.host.dup(),
                }
            },
        };
        self.write(entry)
    }

    /// Undoes every unannounced local change. Each pending path gets back the record peers last
    /// saw, sequence number and all; a path peers never saw loses its record. Returns what
    /// happened at each path, in path order.
    pub fn revert_pending(&mut self) -> (r: Vec<Reverted>)
        ensures
            final(self)@ == old(self)@.reverted(),
            r.deep_view() == Seq::new(
                in_order(old(self)@.pending.dom()).len(),
                |i: int| old(self)@.reverted_at(in_order(old(self)@.pending.dom())[i]),
            ),
    {
        let mut pending: OrdMap<RelPath, Option<IndexRecord>> = OrdMap::new();
        std::mem::swap(&mut pending, &mut self.pending);
        self.exempt = OrdSet::new();
        let ghost before = old(self)@;
        let ghost ks = in_order(before.pending.dom());
        let n: usize = pending.len();
        let mut out: Vec<Reverted> = Vec::new();
        let mut i: usize = 0;
        proof {
            lemma_in_order_exists(before.pending.dom());
            crate::order::lemma_increasing_distinct(ks);
        }
        while i < n
            invariant
                i <= n,
                n == pending@.dom().len(),
                n == ks.len(),
                pending@ == before.pending,
                ks == in_order(before.pending.dom()),
                ks.no_duplicates(),
                self@.pending == Map::<Seq<u8>, Option<RecordView>>::empty(),
                self@ == (IndexView {
                    records: self@.records,
                    pending: Map::empty(),
                    exempt: Set::empty(),
                    ..before
                }),
                forall|p: Seq<u8>|
                    !ks.take(i as int).contains(p) ==> #[trigger] self@.get(p) == before.get(p),
                forall|j: int| 0 <= j < i ==> self@.get(#[trigger] ks[j]) == before.pending[ks[j]],
                out.len() == i,
                forall|j: int|
                    0 <= j < i ==> (#[trigger] out@[j]).deep_view() == before.reverted_at(ks[j]),
            decreases n - i,
        {
            let path = pending.key_at(i);
            let announced = pending.value_at(i);
            let ghost was = self@;
            proof {
                let t = ks.take(i as int);
                if t.contains(path@) {
                    let j = choose|j: int| 0 <= j < t.len() && t[j] == path@;
                    assert(ks[j] == ks[i as int]);
                }
                assert(was.get(path@) == before.get(path@));
            }
            let current = self.records.remove(path);
            if let Some(record) = announced {
                self.records.insert(path.dup(), record.dup());
            }
            let current_entry: Option<Entry> = match current {
                Some(r) => Some(r.entry),
                None => None,
            };
            out.push(
                Reverted { path: path.dup(), current: current_entry, restored: announced.dup() },
            );
            proof {
                let t = ks.take(i as int);
                let u = ks.take(i + 1);
                assert(u =~= t.push(path@));
                assert forall|p: Seq<u8>| !u.contains(p) implies #[trigger] self@.get(p)
                    == before.get(p) by {
                    assert(!t.contains(p)) by {
                        if t.contains(p) {
                            let j = choose|j: int| 0 <= j < t.len() && t[j] == p;
                            assert(u[j] == p);
                        }
                    }
                    assert(u[i as int] == path@);
                    assert(was.get(p) == before.get(p));
                }
                assert forall|j: int| 0 <= j < i + 1 implies self@.get(#[trigger] ks[j])
                    == before.pending[ks[j]] by {
                    if j < i {
                        assert(ks[j] != ks[i as int]);
                        assert(was.get(ks[j]) == before.pending[ks[j]]);
                    }
                }
                assert(out@[i as int].deep_view() == before.reverted_at(ks[i as int]));
            }
            i = i + 1;
        }
        proof {
            assert(ks.take(i as int) =~= ks);
            let target = before.reverted_records();
            assert forall|p: Seq<u8>| self@.get(p) == before.last_seen(p) by {
                if before.pending.contains_key(p) {
                    assert(ks.contains(p));
                    let j = choose|j: int| 0 <= j < ks.len() && ks[j] == p;
                    assert(self@.get(ks[j]) == before.pending[ks[j]]);
                } else {
                    assert(!ks.contains(p));
                    assert(self@.get(p) == before.get(p));
                }
            }
            assert forall|p: Seq<u8>| #[trigger] target.contains_key(p)
                <==> self@.records.contains_key(p) by {
                assert(self@.get(p) == before.last_seen(p));
            }
            assert forall|p: Seq<u8>| #[trigger] target.contains_key(p) implies target[p]
                == self@.records[p] by {
                assert(self@.get(p) == before.last_seen(p));
            }
            assert(self@.records =~= target);
            assert(out.deep_view() =~= Seq::new(ks.len(), |i: int| before.reverted_at(ks[i])));
        }
        out
    }

    /// The version that a brand-new local entry gets.
    pub fn first_version(&self) -> (r: Version)
        ensures
            r@ == raise(Map::empty(), self@.own),
    {
        Version::empty().incremented(self.own)
    }
}

impl Watermark {
    /// A range `(low, high]` arrived.
    fn receive(&mut self, low: u64, high: u64)
        ensures
            final(self)@ == old(self)@.received(low, high),
    {
        if high <= self.contiguous {
            return;
        }
        if low <= self.contiguous {
            self.contiguous = high;
        } else {
            let top: u64 = match self.ranges.get(&low) {
                Some(h) => if *h > high {
                    *h
                } else {
                    high
                },
                None => high,
            };
            self.ranges.insert(low, top);
        }
        let ghost start = self@;
        let mut more = true;
        let size: usize = self.ranges.len();
        while more
            invariant
                self@.ranges.dom().finite(),
                more ==> start.absorbed() == self@.absorbed(),
                !more ==> start.absorbed() == self@,
            decreases self@.ranges.dom().len() + (if more { 1nat } else { 0nat }),
        {
            if self.ranges.len() > 0 && *self.ranges.key_at(0) <= self.contiguous {
                let l: u64 = *self.ranges.key_at(0);
                let h: u64 = *self.ranges.value_at(0);
                self.ranges.remove(&l);
                if h > self.contiguous {
                    self.contiguous = h;
                }
            } else {
                more = false;
            }
        }
    }
}

} // verus!
