//! Quarantine: held batches and the versions they hold.
//!
//! When the brake holds a batch, its entries are stored as they were received under an item named
//! by the batch. Quarantine is by version, not by sender: the same version from any peer is held,
//! and a version that dominates a quarantined one joins its item. Releasing an item removes it
//! with every version it held. A denied item is kept, out of the quarantine, until the denial is
//! announced; a revert before that returns it.
//!
//! The versions at a path are kept in the order in which they arrived, across items, because a
//! later version joins the earliest item that it matches. Each carries an arrival number, so a
//! quarantine rebuilt from its rows keeps that order. Arrival numbers stop at the end of their
//! range.

use crate::brake::HoldReason;
use crate::entry::{Entry, EntryView};
use crate::id::{BatchId, NodeId};
use crate::index::{next_number, vectors};
use crate::order::{in_order, lemma_order_facts, lemma_take_contains, Ordered};
use crate::ordmap::{Key, OrdMap, OrdSet, Value};
use crate::parts::{differs, Changed};
use crate::path::RelPath;
use crate::time::Timestamp;
use crate::version::{covers, Vector, Version};
use vstd::prelude::*;

verus! {

/// One held batch.
#[derive(Clone, Debug, PartialEq, Eq)]
pub struct HeldItem {
    /// The batch that was held. Later batches that join keep this identifier.
    pub batch: BatchId,
    pub source: NodeId,
    pub seq_high: u64,
    pub held_at: Timestamp,
    pub reason: HoldReason,
    /// The latest quarantined entry of each path, as received.
    pub entries: OrdMap<RelPath, Entry>,
}

/// What a held item stands for.
pub struct HeldItemView {
    pub batch: BatchId,
    pub source: NodeId,
    pub seq_high: u64,
    pub held_at: Timestamp,
    pub reason: HoldReason,
    pub entries: Map<Seq<u8>, EntryView>,
}

impl View for HeldItem {
    type V = HeldItemView;

    open spec fn view(&self) -> HeldItemView {
        HeldItemView {
            batch: self.batch,
            source: self.source,
            seq_high: self.seq_high,
            held_at: self.held_at,
            reason: self.reason,
            entries: self.entries@,
        }
    }
}

impl DeepView for HeldItem {
    type V = HeldItemView;

    open spec fn deep_view(&self) -> HeldItemView {
        self.view()
    }
}

impl Value for HeldItem {
    fn dup(&self) -> (r: HeldItem) {
        HeldItem {
            batch: self.batch,
            source: self.source,
            seq_high: self.seq_high,
            held_at: self.held_at,
            reason: self.reason,
            entries: self.entries.dup(),
        }
    }

    fn same(&self, other: &HeldItem) -> (r: bool) {
        self.batch == other.batch && self.source == other.source && self.seq_high == other.seq_high
            && self.held_at == other.held_at && self.reason == other.reason && self.entries.same(
            &other.entries,
        )
    }
}

/// One quarantined version at a path.
#[derive(Clone, Debug, PartialEq, Eq)]
pub struct Quarantined {
    pub version: Version,
    /// Its stamp.
    pub stamp: i64,
    /// Its place in the order of arrival.
    pub arrival: u64,
}

/// What a quarantined version stands for.
pub struct QuarantinedView {
    pub version: Vector,
    pub stamp: i64,
    pub arrival: u64,
}

impl View for Quarantined {
    type V = QuarantinedView;

    open spec fn view(&self) -> QuarantinedView {
        QuarantinedView { version: self.version@, stamp: self.stamp, arrival: self.arrival }
    }
}

impl DeepView for Quarantined {
    type V = QuarantinedView;

    open spec fn deep_view(&self) -> QuarantinedView {
        self.view()
    }
}

impl Value for Quarantined {
    fn dup(&self) -> (r: Quarantined) {
        Quarantined { version: self.version.dup(), stamp: self.stamp, arrival: self.arrival }
    }

    fn same(&self, other: &Quarantined) -> (r: bool) {
        self.version.same(&other.version) && self.stamp == other.stamp && self.arrival
            == other.arrival
    }
}

/// A held item with every version it holds.
#[derive(Clone, Debug, PartialEq, Eq)]
pub struct HeldRow {
    pub item: HeldItem,
    /// The item's quarantined versions at each path, in the order of arrival.
    pub versions: OrdMap<RelPath, Vec<Quarantined>>,
}

/// What a row stands for.
pub struct HeldRowView {
    pub item: HeldItemView,
    pub versions: Map<Seq<u8>, Seq<QuarantinedView>>,
}

impl View for HeldRow {
    type V = HeldRowView;

    open spec fn view(&self) -> HeldRowView {
        HeldRowView { item: self.item@, versions: self.versions@ }
    }
}

impl DeepView for HeldRow {
    type V = HeldRowView;

    open spec fn deep_view(&self) -> HeldRowView {
        self.view()
    }
}

impl Value for HeldRow {
    fn dup(&self) -> (r: HeldRow) {
        HeldRow { item: self.item.dup(), versions: self.versions.dup() }
    }

    fn same(&self, other: &HeldRow) -> (r: bool) {
        self.item.same(&other.item) && self.versions.same(&other.versions)
    }
}

/// Whether a row is held, or was denied with the arrival number that the denial took.
#[derive(Clone, Copy, Debug, PartialEq, Eq, PartialOrd, Ord, Hash, Structural)]
pub enum HeldState {
    Held,
    Denied { at: u64 },
}

impl DeepView for HeldState {
    type V = HeldState;

    open spec fn deep_view(&self) -> HeldState {
        *self
    }
}

impl Ordered for HeldState {
    open spec fn before(self, other: HeldState) -> bool {
        match other {
            HeldState::Held => false,
            HeldState::Denied { at: b } => match self {
                HeldState::Held => true,
                HeldState::Denied { at: a } => a < b,
            },
        }
    }

    proof fn irreflexive(a: HeldState) {
    }

    proof fn transitive(a: HeldState, b: HeldState, c: HeldState) {
    }

    proof fn total(a: HeldState, b: HeldState) {
    }
}

impl Key for HeldState {
    type O = HeldState;

    open spec fn key(&self) -> HeldState {
        *self
    }

    fn less(&self, other: &HeldState) -> (r: bool) {
        let r = match other {
            HeldState::Held => false,
            HeldState::Denied { at: b } => match self {
                HeldState::Held => true,
                HeldState::Denied { at: a } => *a < *b,
            },
        };
        assert(r == self.before(*other));
        assert(self.key() == *self && other.key() == *other);
        r
    }

    fn copy_key(&self) -> (r: HeldState) {
        *self
    }
}

impl Value for HeldState {
    fn dup(&self) -> (r: HeldState) {
        *self
    }

    fn same(&self, other: &HeldState) -> (r: bool) {
        *self == *other
    }
}

// ---- the model --------------------------------------------------------------

/// The versions at a path, each with the item that it belongs to.
pub type Arrivals = Seq<(BatchId, QuarantinedView)>;

/// What a quarantine stands for.
pub struct QuarantineView {
    pub items: Map<BatchId, HeldItemView>,
    /// Every quarantined version at each path, in the order of arrival.
    pub versions: Map<Seq<u8>, Arrivals>,
    /// Denied items by the arrival number that each denial took.
    pub denied: Map<u64, HeldRowView>,
    /// The last arrival number given out.
    pub arrivals: u64,
    /// Rows that changed since they were last reported.
    pub changed: Set<(BatchId, HeldState)>,
}

/// The versions of a list that do not belong to an item.
pub open spec fn without(list: Arrivals, batch: BatchId) -> Arrivals
    decreases list.len(),
{
    if list.len() == 0 {
        Seq::empty()
    } else if list.last().0 == batch {
        without(list.drop_last(), batch)
    } else {
        without(list.drop_last(), batch).push(list.last())
    }
}

/// The versions of a list that belong to an item.
pub open spec fn only(list: Arrivals, batch: BatchId) -> Seq<QuarantinedView>
    decreases list.len(),
{
    if list.len() == 0 {
        Seq::empty()
    } else if list.last().0 == batch {
        only(list.drop_last(), batch).push(list.last().1)
    } else {
        only(list.drop_last(), batch)
    }
}

/// Whether an item holds a version in a list.
pub open spec fn holds_version(list: Arrivals, batch: BatchId, version: Vector) -> bool {
    exists|i: int|
        0 <= i < list.len() && (#[trigger] list[i]).0 == batch && list[i].1.version == version
}

/// The item of the first version in a list that a version equals or dominates.
pub open spec fn first_match(list: Arrivals, version: Vector) -> Option<BatchId>
    decreases list.len(),
{
    if list.len() == 0 {
        None
    } else {
        match first_match(list.drop_last(), version) {
            Some(b) => Some(b),
            None => if covers(version, list.last().1.version) {
                Some(list.last().0)
            } else {
                None
            },
        }
    }
}

/// The largest stamp in a list.
pub open spec fn max_stamp(list: Arrivals) -> Option<i64>
    decreases list.len(),
{
    if list.len() == 0 {
        None
    } else {
        match max_stamp(list.drop_last()) {
            Some(s) => if s >= list.last().1.stamp {
                Some(s)
            } else {
                Some(list.last().1.stamp)
            },
            None => Some(list.last().1.stamp),
        }
    }
}

/// The versions in a list.
pub open spec fn versions_in(list: Arrivals) -> Seq<Vector> {
    Seq::new(list.len(), |i: int| list[i].1.version)
}

/// Versions as belonging to an item.
pub open spec fn tagged(list: Seq<QuarantinedView>, batch: BatchId) -> Arrivals {
    Seq::new(list.len(), |i: int| (batch, list[i]))
}

/// The positions of a list by arrival number; equal numbers keep their order.
pub open spec fn arrival_keys(list: Arrivals) -> Set<(u64, u64)> {
    Set::new(
        |k: (u64, u64)| k.1 < list.len() && list[k.1 as int].1.arrival == k.0,
    )
}

/// A list in the order of its arrival numbers.
pub open spec fn by_arrival(list: Arrivals) -> Arrivals {
    let ks = in_order(arrival_keys(list));
    Seq::new(ks.len(), |i: int| list[ks[i].1 as int])
}

impl QuarantineView {
    /// A quarantine that holds nothing.
    pub open spec fn initial() -> QuarantineView {
        QuarantineView {
            items: Map::empty(),
            versions: Map::empty(),
            denied: Map::empty(),
            arrivals: 0,
            changed: Set::empty(),
        }
    }

    /// The versions at a path.
    pub open spec fn list(self, path: Seq<u8>) -> Arrivals {
        if self.versions.contains_key(path) {
            self.versions[path]
        } else {
            Seq::empty()
        }
    }

    /// The quarantine with a row noted as changed.
    pub open spec fn noted(self, batch: BatchId, state: HeldState) -> QuarantineView {
        QuarantineView { changed: self.changed.insert((batch, state)), ..self }
    }

    /// The quarantine after a version at a path was recorded for an item. What the item holds
    /// already is not recorded again.
    pub open spec fn recorded(
        self,
        path: Seq<u8>,
        version: Vector,
        stamp: i64,
        batch: BatchId,
    ) -> QuarantineView {
        if holds_version(self.list(path), batch, version) {
            self
        } else {
            QuarantineView {
                arrivals: next_number(self.arrivals),
                versions: self.versions.insert(
                    path,
                    self.list(path).push(
                        (
                            batch,
                            QuarantinedView { version, stamp, arrival: next_number(self.arrivals) },
                        ),
                    ),
                ),
                ..self
            }
        }
    }

    /// The quarantine after entries at some paths were recorded for an item.
    pub open spec fn recorded_all(
        self,
        entries: Map<Seq<u8>, EntryView>,
        ks: Seq<Seq<u8>>,
        batch: BatchId,
    ) -> QuarantineView
        decreases ks.len(),
    {
        if ks.len() == 0 {
            self
        } else {
            let e = entries[ks.last()];
            self.recorded_all(entries, ks.drop_last(), batch).recorded(
                e.path,
                e.version,
                e.stamp,
                batch,
            )
        }
    }

    /// The quarantine after an entry joined an item.
    pub open spec fn joined(self, batch: BatchId, entry: EntryView) -> QuarantineView {
        if !self.items.contains_key(batch) {
            self
        } else {
            let s = self.recorded(entry.path, entry.version, entry.stamp, batch).noted(
                batch,
                HeldState::Held,
            );
            let item = self.items[batch];
            if item.entries.contains_key(entry.path) && !covers(
                entry.version,
                item.entries[entry.path].version,
            ) {
                s
            } else {
                QuarantineView {
                    items: s.items.insert(
                        batch,
                        HeldItemView { entries: item.entries.insert(entry.path, entry), ..item },
                    ),
                    ..s
                }
            }
        }
    }

    /// The quarantine after entries at some paths joined an item.
    pub open spec fn joined_all(
        self,
        entries: Map<Seq<u8>, EntryView>,
        ks: Seq<Seq<u8>>,
        batch: BatchId,
    ) -> QuarantineView
        decreases ks.len(),
    {
        if ks.len() == 0 {
            self
        } else {
            self.joined_all(entries, ks.drop_last(), batch).joined(batch, entries[ks.last()])
        }
    }

    /// The quarantine after an item was held.
    pub open spec fn held(self, item: HeldItemView) -> QuarantineView {
        let ks = in_order(item.entries.dom());
        if self.items.contains_key(item.batch) {
            self.joined_all(item.entries, ks, item.batch)
        } else {
            let s = self.recorded_all(item.entries, ks, item.batch).noted(
                item.batch,
                HeldState::Held,
            );
            QuarantineView { items: s.items.insert(item.batch, item), ..s }
        }
    }

    /// The versions once an item with entries at some paths is gone.
    pub open spec fn versions_without(
        self,
        paths: Set<Seq<u8>>,
        batch: BatchId,
    ) -> Map<Seq<u8>, Arrivals> {
        Map::new(
            |p: Seq<u8>|
                self.versions.contains_key(p) && !(paths.contains(p) && without(
                    self.versions[p],
                    batch,
                ).len() == 0),
            |p: Seq<u8>|
                if paths.contains(p) {
                    without(self.versions[p], batch)
                } else {
                    self.versions[p]
                },
        )
    }

    /// The quarantine after an item was released.
    pub open spec fn released(self, batch: BatchId) -> QuarantineView {
        if !self.items.contains_key(batch) {
            self
        } else {
            QuarantineView {
                items: self.items.remove(batch),
                versions: self.versions_without(self.items[batch].entries.dom(), batch),
                ..self
            }.noted(batch, HeldState::Held)
        }
    }

    /// An item with every version it holds.
    pub open spec fn row(self, batch: BatchId) -> Option<HeldRowView> {
        if !self.items.contains_key(batch) {
            None
        } else {
            let item = self.items[batch];
            Some(
                HeldRowView {
                    item,
                    versions: Map::new(
                        |p: Seq<u8>| item.entries.contains_key(p),
                        |p: Seq<u8>| only(self.list(p), batch),
                    ),
                },
            )
        }
    }

    /// The quarantine after an item was denied.
    pub open spec fn denial(self, batch: BatchId) -> QuarantineView {
        match self.row(batch) {
            None => self,
            Some(row) => {
                let s = self.released(batch);
                let at = next_number(s.arrivals);
                QuarantineView {
                    arrivals: at,
                    denied: s.denied.insert(at, row),
                    ..s
                }.noted(batch, HeldState::Denied { at })
            },
        }
    }

    /// Rows of denied items.
    pub open spec fn denied_rows(denied: Map<u64, HeldRowView>) -> Set<(BatchId, HeldState)> {
        Set::new(
            |k: (BatchId, HeldState)|
                match k.1 {
                    HeldState::Held => false,
                    HeldState::Denied { at } => denied.contains_key(at) && denied[at].item.batch
                        == k.0,
                },
        )
    }

    /// The quarantine after the denials became final.
    pub open spec fn forgotten(self) -> QuarantineView {
        QuarantineView {
            denied: Map::empty(),
            changed: self.changed.union(Self::denied_rows(self.denied)),
            ..self
        }
    }

    /// The quarantine after some versions at a path arrived again.
    pub open spec fn recorded_again(
        self,
        path: Seq<u8>,
        list: Seq<QuarantinedView>,
        batch: BatchId,
    ) -> QuarantineView
        decreases list.len(),
    {
        if list.len() == 0 {
            self
        } else {
            self.recorded_again(path, list.drop_last(), batch).recorded(
                path,
                list.last().version,
                list.last().stamp,
                batch,
            )
        }
    }

    /// The quarantine after versions at some paths arrived again.
    pub open spec fn recorded_rows(
        self,
        versions: Map<Seq<u8>, Seq<QuarantinedView>>,
        ks: Seq<Seq<u8>>,
        batch: BatchId,
    ) -> QuarantineView
        decreases ks.len(),
    {
        if ks.len() == 0 {
            self
        } else {
            self.recorded_rows(versions, ks.drop_last(), batch).recorded_again(
                ks.last(),
                versions[ks.last()],
                batch,
            )
        }
    }

    /// The quarantine after a denied item was put back.
    pub open spec fn reinstated(self, row: HeldRowView) -> QuarantineView {
        self.recorded_rows(row.versions, in_order(row.versions.dom()), row.item.batch).held(
            row.item,
        )
    }

    /// The quarantine after some denied items were put back.
    pub open spec fn returned(
        self,
        denied: Map<u64, HeldRowView>,
        ks: Seq<u64>,
    ) -> QuarantineView
        decreases ks.len(),
    {
        if ks.len() == 0 {
            self
        } else {
            let row = denied[ks.last()];
            self.returned(denied, ks.drop_last()).noted(
                row.item.batch,
                HeldState::Denied { at: ks.last() },
            ).reinstated(row)
        }
    }

    /// The quarantine after every denied item was put back.
    pub open spec fn all_returned(self) -> QuarantineView {
        QuarantineView { denied: Map::empty(), ..self }.returned(
            self.denied,
            in_order(self.denied.dom()),
        )
    }

    /// A row as it stands.
    pub open spec fn row_at(self, batch: BatchId, state: HeldState) -> Option<HeldRowView> {
        match state {
            HeldState::Held => self.row(batch),
            HeldState::Denied { at } => if self.denied.contains_key(at) {
                Some(self.denied[at])
            } else {
                None
            },
        }
    }

    /// Every row, held and denied.
    pub open spec fn rows(self) -> Map<(BatchId, HeldState), HeldRowView> {
        Map::new(
            |k: (BatchId, HeldState)|
                match k.1 {
                    HeldState::Held => self.items.contains_key(k.0),
                    HeldState::Denied { at } => self.denied.contains_key(at)
                        && self.denied[at].item.batch == k.0,
                },
            |k: (BatchId, HeldState)| self.row_at(k.0, k.1)->0,
        )
    }

    /// The versions with those of an item behind them.
    pub open spec fn versions_with(
        versions: Map<Seq<u8>, Arrivals>,
        more: Map<Seq<u8>, Seq<QuarantinedView>>,
        batch: BatchId,
    ) -> Map<Seq<u8>, Arrivals> {
        Map::new(
            |p: Seq<u8>| versions.contains_key(p) || more.contains_key(p),
            |p: Seq<u8>|
                (if versions.contains_key(p) {
                    versions[p]
                } else {
                    Seq::empty()
                }) + (if more.contains_key(p) {
                    tagged(more[p], batch)
                } else {
                    Seq::empty()
                }),
        )
    }

    /// The quarantine with one row more.
    pub open spec fn with_row(self, k: (BatchId, HeldState), row: HeldRowView) -> QuarantineView {
        match k.1 {
            HeldState::Held => QuarantineView {
                versions: Self::versions_with(self.versions, row.versions, k.0),
                items: self.items.insert(k.0, row.item),
                ..self
            },
            HeldState::Denied { at } => QuarantineView {
                denied: self.denied.insert(at, row),
                ..self
            },
        }
    }

    /// The quarantine with some rows.
    pub open spec fn with_rows(
        self,
        rows: Map<(BatchId, HeldState), HeldRowView>,
        ks: Seq<(BatchId, HeldState)>,
    ) -> QuarantineView
        decreases ks.len(),
    {
        if ks.len() == 0 {
            self
        } else {
            self.with_rows(rows, ks.drop_last()).with_row(ks.last(), rows[ks.last()])
        }
    }

    /// The quarantine with the versions of every path in the order of arrival.
    pub open spec fn arranged(self) -> QuarantineView {
        QuarantineView {
            versions: Map::new(
                |p: Seq<u8>| self.versions.contains_key(p),
                |p: Seq<u8>| by_arrival(self.versions[p]),
            ),
            ..self
        }
    }

    /// The quarantine that rows and an arrival number stand for.
    pub open spec fn rebuilt(
        rows: Map<(BatchId, HeldState), HeldRowView>,
        arrivals: u64,
    ) -> QuarantineView {
        QuarantineView { arrivals, ..QuarantineView::initial() }.with_rows(
            rows,
            in_order(rows.dom()),
        ).arranged()
    }
}

// ---- the type ---------------------------------------------------------------

/// The folder's quarantine: held items, and the versions in them.
#[derive(Clone, Debug, PartialEq, Eq)]
pub struct Quarantine {
    items: OrdMap<BatchId, HeldItem>,
    versions: OrdMap<RelPath, Vec<(BatchId, Quarantined)>>,
    denied: OrdMap<u64, HeldRow>,
    arrivals: u64,
    changed: Changed<(BatchId, HeldState)>,
}

impl View for Quarantine {
    type V = QuarantineView;

    closed spec fn view(&self) -> QuarantineView {
        QuarantineView {
            items: self.items@,
            versions: self.versions@,
            denied: self.denied@,
            arrivals: self.arrivals,
            changed: self.changed@,
        }
    }
}

impl DeepView for Quarantine {
    type V = QuarantineView;

    open spec fn deep_view(&self) -> QuarantineView {
        self.view()
    }
}

impl Default for Quarantine {
    fn default() -> (r: Quarantine)
        ensures
            r@ == QuarantineView::initial(),
    {
        Quarantine {
            items: OrdMap::new(),
            versions: OrdMap::new(),
            denied: OrdMap::new(),
            arrivals: 0,
            changed: Changed::default(),
        }
    }
}

impl Quarantine {
    /// True if no item is held.
    pub fn is_empty(&self) -> (r: bool)
        ensures
            r == (self@.items == Map::<BatchId, HeldItemView>::empty()),
    {
        self.items.is_empty()
    }

    /// Number of held items.
    pub fn len(&self) -> (r: usize)
        ensures
            r == self@.items.dom().len(),
            self@.items.dom().finite(),
    {
        self.items.len()
    }

    /// The last arrival number given out.
    pub fn arrivals(&self) -> (r: u64)
        ensures
            r == self@.arrivals,
    {
        self.arrivals
    }

    /// Held items in the order of their identifiers.
    pub fn items(&self) -> (r: Vec<&HeldItem>)
        ensures
            r.deep_view() == Seq::new(
                in_order(self@.items.dom()).len(),
                |i: int| self@.items[in_order(self@.items.dom())[i]],
            ),
    {
        let mut out: Vec<&HeldItem> = Vec::new();
        let n: usize = self.items.len();
        let mut i: usize = 0;
        while i < n
            invariant
                i <= n,
                n == self.items@.dom().len(),
                n == in_order(self.items@.dom()).len(),
                out.len() == i,
                forall|j: int|
                    0 <= j < i ==> (#[trigger] out@[j]).deep_view() == self.items@[in_order(
                        self.items@.dom(),
                    )[j]],
            decreases n - i,
        {
            out.push(self.items.value_at(i));
            i = i + 1;
        }
        assert(out.deep_view() =~= Seq::new(
            in_order(self@.items.dom()).len(),
            |i: int| self@.items[in_order(self@.items.dom())[i]],
        ));
        out
    }

    /// The item held under `batch`.
    pub fn get(&self, batch: BatchId) -> (r: Option<&HeldItem>)
        ensures
            r.deep_view() == if self@.items.contains_key(batch) {
                Some(self@.items[batch])
            } else {
                None
            },
    {
        self.items.get(&batch)
    }

    /// The held item that an incoming entry belongs to, if its version equals or dominates a
    /// quarantined version at its path. The earliest such item wins.
    pub fn matching(&self, entry: &Entry) -> (r: Option<BatchId>)
        ensures
            r == first_match(self@.list(entry@.path), entry@.version),
    {
        match self.versions.get(&entry.path) {
            None => None,
            Some(list) => {
                let ghost l = list.deep_view();
                let mut i: usize = 0;
                assert(l.take(0) =~= Seq::empty());
                while i < list.len()
                    invariant
                        i <= list.len(),
                        l == list.deep_view(),
                        l == self@.list(entry@.path),
                        first_match(l.take(i as int), entry@.version) is None,
                    decreases list.len() - i,
                {
                    assert(l.take(i + 1).drop_last() =~= l.take(i as int));
                    assert(l.take(i + 1).last() == list@[i as int].deep_view());
                    if entry.version.dominates_or_equals(&list[i].1.version) {
                        proof {
                            lemma_first_match_stays(l, i + 1, entry@.version);
                        }
                        return Some(list[i].0);
                    }
                    i = i + 1;
                }
                assert(l.take(i as int) =~= l);
                None
            },
        }
    }

    /// The largest stamp among the quarantined versions at `path`, `None` if none is held there.
    pub fn max_stamp_at(&self, path: &RelPath) -> (r: Option<i64>)
        ensures
            r == max_stamp(self@.list(path@)),
    {
        match self.versions.get(path) {
            None => None,
            Some(list) => {
                let ghost l = list.deep_view();
                let mut best: Option<i64> = None;
                let mut i: usize = 0;
                assert(l.take(0) =~= Seq::empty());
                while i < list.len()
                    invariant
                        i <= list.len(),
                        l == list.deep_view(),
                        best == max_stamp(l.take(i as int)),
                    decreases list.len() - i,
                {
                    assert(l.take(i + 1).drop_last() =~= l.take(i as int));
                    assert(l.take(i + 1).last() == list@[i as int].deep_view());
                    let s: i64 = list[i].1.stamp;
                    best = match best {
                        Some(b) => if b >= s {
                            Some(b)
                        } else {
                            Some(s)
                        },
                        None => Some(s),
                    };
                    i = i + 1;
                }
                assert(l.take(i as int) =~= l);
                best
            },
        }
    }

    /// Every quarantined version at `path`, across all items.
    pub fn versions_at(&self, path: &RelPath) -> (r: Vec<Version>)
        ensures
            r.deep_view() == versions_in(self@.list(path@)),
            vectors(r@) == versions_in(self@.list(path@)),
    {
        let mut out: Vec<Version> = Vec::new();
        if let Some(list) = self.versions.get(path) {
            let ghost l = list.deep_view();
            let mut i: usize = 0;
            while i < list.len()
                invariant
                    i <= list.len(),
                    l == list.deep_view(),
                    l == self@.list(path@),
                    out.len() == i,
                    forall|j: int|
                        0 <= j < i ==> (#[trigger] out@[j]).deep_view() == l[j].1.version,
                decreases list.len() - i,
            {
                assert(l[i as int] == list@[i as int].deep_view());
                out.push(list[i].1.version.dup());
                i = i + 1;
            }
        }
        assert(out.deep_view() =~= versions_in(self@.list(path@)));
        assert(vectors(out@) =~= out.deep_view());
        out
    }

    /// Quarantines a version at `path` for the item `batch`, with the next arrival number, unless
    /// the item holds it there already.
    fn record(&mut self, path: &RelPath, version: Version, stamp: i64, batch: BatchId)
        ensures
            final(self)@ == old(self)@.recorded(path@, version@, stamp, batch),
    {
        let mut list: Vec<(BatchId, Quarantined)> = match self.versions.get(path) {
            Some(l) => l.dup(),
            None => Vec::new(),
        };
        let ghost l = list.deep_view();
        assert(l =~= self@.list(path@));
        let mut i: usize = 0;
        while i < list.len()
            invariant
                i <= list.len(),
                l == list.deep_view(),
                self@ == old(self)@,
                l == self@.list(path@),
                forall|j: int|
                    0 <= j < i ==> !((#[trigger] l[j]).0 == batch && l[j].1.version == version@),
            decreases list.len() - i,
        {
            assert(l[i as int] == list@[i as int].deep_view());
            if list[i].0 == batch && list[i].1.version.same(&version) {
                return;
            }
            i = i + 1;
        }
        let arrival: u64 = if self.arrivals < u64::MAX {
            self.arrivals + 1
        } else {
            self.arrivals
        };
        self.arrivals = arrival;
        let ghost v = version@;
        list.push((batch, Quarantined { version, stamp, arrival }));
        assert(list.deep_view() =~= l.push((batch, QuarantinedView { version: v, stamp, arrival })));
        self.versions.insert(path.dup(), list);
    }

    /// Holds an item with its entries. If an item with this identifier is held already, the
    /// entries join it.
    pub fn hold(&mut self, item: HeldItem)
        ensures
            final(self)@ == old(self)@.held(item@),
    {
        let batch = item.batch;
        let n: usize = item.entries.len();
        let ghost ks = in_order(item@.entries.dom());
        let ghost start = self@;
        let mut i: usize = 0;
        assert(ks.take(0) =~= Seq::empty());
        if self.items.contains_key(&batch) {
            while i < n
                invariant
                    i <= n,
                    n == item.entries@.dom().len(),
                    n == ks.len(),
                    ks == in_order(item@.entries.dom()),
                    self@ == start.joined_all(item@.entries, ks.take(i as int), batch),
                decreases n - i,
            {
                proof {
                    lemma_take_contains(ks, i as int, ks[i as int]);
                }
                self.join(batch, item.entries.value_at(i).dup());
                i = i + 1;
            }
            assert(ks.take(i as int) =~= ks);
            return;
        }
        while i < n
            invariant
                i <= n,
                n == item.entries@.dom().len(),
                n == ks.len(),
                ks == in_order(item@.entries.dom()),
                self@ == start.recorded_all(item@.entries, ks.take(i as int), batch),
            decreases n - i,
        {
            proof {
                lemma_take_contains(ks, i as int, ks[i as int]);
            }
            let entry = item.entries.value_at(i);
            self.record(&entry.path, entry.version.dup(), entry.stamp, batch);
            i = i + 1;
        }
        assert(ks.take(i as int) =~= ks);
        self.changed.note(&(batch, HeldState::Held));
        self.items.insert(batch, item);
    }

    /// An incoming entry joins an existing item: its version is quarantined, and it replaces the
    /// stored entry of its path if it dominates or equals it. False if there is no such item.
    pub fn join(&mut self, batch: BatchId, entry: Entry) -> (r: bool)
        ensures
            final(self)@ == old(self)@.joined(batch, entry@),
            r == old(self)@.items.contains_key(batch),
    {
        let mut item = match self.items.get(&batch) {
            Some(item) => item.dup(),
            None => {
                return false;
            },
        };
        self.record(&entry.path, entry.version.dup(), entry.stamp, batch);
        self.changed.note(&(batch, HeldState::Held));
        let replace = match item.entries.get(&entry.path) {
            Some(stored) => entry.version.dominates_or_equals(&stored.version),
            None => true,
        };
        if replace {
            item.entries.insert(entry.path.dup(), entry);
            self.items.insert(batch, item);
        }
        true
    }

    /// Releases an item: removes it and every version it held.
    pub fn release(&mut self, batch: BatchId) -> (r: Option<HeldItem>)
        ensures
            final(self)@ == old(self)@.released(batch),
            r.deep_view() == if old(self)@.items.contains_key(batch) {
                Some(old(self)@.items[batch])
            } else {
                None
            },
    {
        let item = match self.items.remove(&batch) {
            Some(item) => item,
            None => {
                assert(self@.items =~= old(self)@.items);
                return None;
            },
        };
        self.changed.note(&(batch, HeldState::Held));
        let ghost start = old(self)@;
        let ghost mid = self@;
        let n: usize = item.entries.len();
        let ghost ks = in_order(item@.entries.dom());
        let mut i: usize = 0;
        proof {
            lemma_order_facts(item@.entries.dom());
            assert(self@.versions =~= start.versions_without(ks.take(0).to_set(), batch));
        }
        while i < n
            invariant
                i <= n,
                n == item.entries@.dom().len(),
                n == ks.len(),
                ks == in_order(item@.entries.dom()),
                ks.no_duplicates(),
                mid.versions == start.versions,
                self@ == (QuarantineView { versions: self@.versions, ..mid }),
                self@.versions == start.versions_without(ks.take(i as int).to_set(), batch),
            decreases n - i,
        {
            let path = item.entries.key_at(i);
            let ghost was = self@.versions;
            proof {
                assert forall|x: Seq<u8>|
                    ks.take(i + 1).to_set().contains(x) <==> ks.take(i as int).to_set().contains(x)
                        || x == path@ by {
                    lemma_take_contains(ks, i as int, x);
                }
                lemma_take_contains(ks, i as int, path@);
            }
            match self.versions.remove(path) {
                Some(list) => {
                    let kept = Self::drop_batch(&list, batch);
                    if kept.len() > 0 {
                        assert(kept.deep_view().len() > 0);
                        self.versions.insert(path.dup(), kept);
                    } else {
                        assert(kept.deep_view().len() == 0);
                    }
                },
                None => {},
            }
            assert(self@.versions =~= start.versions_without(ks.take(i + 1).to_set(), batch));
            i = i + 1;
        }
        proof {
            assert(ks.take(i as int) =~= ks);
            assert(ks.to_set() =~= item@.entries.dom());
        }
        Some(item)
    }

    /// The versions of a list that do not belong to an item.
    fn drop_batch(list: &Vec<(BatchId, Quarantined)>, batch: BatchId) -> (r: Vec<
        (BatchId, Quarantined),
    >)
        ensures
            r.deep_view() == without(list.deep_view(), batch),
    {
        let ghost l = list.deep_view();
        let mut out: Vec<(BatchId, Quarantined)> = Vec::new();
        let mut i: usize = 0;
        assert(l.take(0) =~= Seq::empty());
        assert(out.deep_view() =~= without(l.take(0), batch));
        while i < list.len()
            invariant
                i <= list.len(),
                l == list.deep_view(),
                out.deep_view() == without(l.take(i as int), batch),
            decreases list.len() - i,
        {
            let ghost before = out.deep_view();
            assert(l.take(i + 1).drop_last() =~= l.take(i as int));
            assert(l.take(i + 1).last() == list@[i as int].deep_view());
            if list[i].0 != batch {
                out.push(list[i].dup());
                assert(out.deep_view() =~= before.push(list@[i as int].deep_view()));
            }
            i = i + 1;
        }
        assert(l.take(i as int) =~= l);
        out
    }

    /// The versions of a list that belong to an item.
    fn keep_batch(list: &Vec<(BatchId, Quarantined)>, batch: BatchId) -> (r: Vec<Quarantined>)
        ensures
            r.deep_view() == only(list.deep_view(), batch),
    {
        let ghost l = list.deep_view();
        let mut out: Vec<Quarantined> = Vec::new();
        let mut i: usize = 0;
        assert(l.take(0) =~= Seq::empty());
        assert(out.deep_view() =~= only(l.take(0), batch));
        while i < list.len()
            invariant
                i <= list.len(),
                l == list.deep_view(),
                out.deep_view() == only(l.take(i as int), batch),
            decreases list.len() - i,
        {
            let ghost before = out.deep_view();
            assert(l.take(i + 1).drop_last() =~= l.take(i as int));
            assert(l.take(i + 1).last() == list@[i as int].deep_view());
            if list[i].0 == batch {
                out.push(list[i].1.dup());
                assert(out.deep_view() =~= before.push(list@[i as int].1@));
            }
            i = i + 1;
        }
        assert(l.take(i as int) =~= l);
        out
    }

    /// The item held under `batch` with every version it holds.
    pub fn row(&self, batch: BatchId) -> (r: Option<HeldRow>)
        ensures
            r.deep_view() == self@.row(batch),
    {
        let item = match self.items.get(&batch) {
            Some(item) => item.dup(),
            None => {
                return None;
            },
        };
        let n: usize = item.entries.len();
        let ghost ks = in_order(item@.entries.dom());
        let ghost target = (self@.row(batch)->0).versions;
        let mut versions: OrdMap<RelPath, Vec<Quarantined>> = OrdMap::new();
        let mut i: usize = 0;
        proof {
            lemma_order_facts(item@.entries.dom());
        }
        while i < n
            invariant
                i <= n,
                n == item.entries@.dom().len(),
                n == ks.len(),
                ks == in_order(item@.entries.dom()),
                item@ == self@.items[batch],
                forall|p: Seq<u8>| #[trigger]
                    versions@.contains_key(p) <==> ks.take(i as int).contains(p),
                forall|p: Seq<u8>| #[trigger]
                    versions@.contains_key(p) ==> versions@[p] == only(self@.list(p), batch),
            decreases n - i,
        {
            let path = item.entries.key_at(i);
            let held: Vec<Quarantined> = match self.versions.get(path) {
                Some(list) => Self::keep_batch(list, batch),
                None => Vec::new(),
            };
            assert(held.deep_view() =~= only(self@.list(path@), batch));
            versions.insert(path.dup(), held);
            proof {
                assert forall|p: Seq<u8>| #[trigger]
                    versions@.contains_key(p) <==> ks.take(i + 1).contains(p) by {
                    lemma_take_contains(ks, i as int, p);
                }
            }
            i = i + 1;
        }
        assert(ks.take(i as int) =~= ks);
        assert(versions@ =~= target);
        Some(HeldRow { item, versions })
    }

    /// Denied items whose denial is not final, in the order of the denials.
    pub fn denied(&self) -> (r: Vec<&HeldRow>)
        ensures
            r.deep_view() == Seq::new(
                in_order(self@.denied.dom()).len(),
                |i: int| self@.denied[in_order(self@.denied.dom())[i]],
            ),
    {
        let mut out: Vec<&HeldRow> = Vec::new();
        let n: usize = self.denied.len();
        let mut i: usize = 0;
        while i < n
            invariant
                i <= n,
                n == self.denied@.dom().len(),
                n == in_order(self.denied@.dom()).len(),
                out.len() == i,
                forall|j: int|
                    0 <= j < i ==> (#[trigger] out@[j]).deep_view() == self.denied@[in_order(
                        self.denied@.dom(),
                    )[j]],
            decreases n - i,
        {
            out.push(self.denied.value_at(i));
            i = i + 1;
        }
        assert(out.deep_view() =~= Seq::new(
            in_order(self@.denied.dom()).len(),
            |i: int| self@.denied[in_order(self@.denied.dom())[i]],
        ));
        out
    }

    /// Takes an item out as [`Quarantine::release`] does, but keeps it with every version it held
    /// as a denied item. False if no item is held under `batch`.
    pub fn deny(&mut self, batch: BatchId) -> (r: bool)
        ensures
            final(self)@ == old(self)@.denial(batch),
            r == old(self)@.items.contains_key(batch),
    {
        let row = match self.row(batch) {
            Some(row) => row,
            None => {
                return false;
            },
        };
        self.release(batch);
        let at: u64 = if self.arrivals < u64::MAX {
            self.arrivals + 1
        } else {
            self.arrivals
        };
        self.arrivals = at;
        self.changed.note(&(batch, HeldState::Denied { at }));
        self.denied.insert(at, row);
        true
    }

    /// The denials are final: their items are gone for good.
    pub fn forget_denied(&mut self)
        ensures
            final(self)@ == old(self)@.forgotten(),
    {
        let mut denied: OrdMap<u64, HeldRow> = OrdMap::new();
        std::mem::swap(&mut denied, &mut self.denied);
        let ghost start = old(self)@;
        let ghost ks = in_order(denied@.dom());
        let n: usize = denied.len();
        let mut i: usize = 0;
        proof {
            lemma_order_facts(denied@.dom());
        }
        while i < n
            invariant
                i <= n,
                n == denied@.dom().len(),
                n == ks.len(),
                denied@ == start.denied,
                ks == in_order(denied@.dom()),
                self@ == (QuarantineView {
                    denied: Map::empty(),
                    changed: self@.changed,
                    ..start
                }),
                forall|k: (BatchId, HeldState)| #[trigger]
                    self@.changed.contains(k) <==> start.changed.contains(k) || (
                    QuarantineView::denied_rows(start.denied).contains(k) && ks.take(
                        i as int,
                    ).contains(k.1->at)),
            decreases n - i,
        {
            let at: u64 = *denied.key_at(i);
            let row = denied.value_at(i);
            self.changed.note(&(row.item.batch, HeldState::Denied { at }));
            proof {
                assert forall|k: (BatchId, HeldState)| #[trigger]
                    self@.changed.contains(k) <==> start.changed.contains(k) || (
                    QuarantineView::denied_rows(start.denied).contains(k) && ks.take(
                        i + 1,
                    ).contains(k.1->at)) by {
                    lemma_take_contains(ks, i as int, k.1->at);
                }
            }
            i = i + 1;
        }
        proof {
            assert(ks.take(i as int) =~= ks);
            assert(self@.changed =~= start.forgotten().changed);
        }
    }

    /// Every denied item is held again, in the order of the denials. Returns each one's
    /// identifier and number of paths, in that order.
    pub fn return_denied(&mut self) -> (r: Vec<(BatchId, usize)>)
        ensures
            final(self)@ == old(self)@.all_returned(),
            r.len() == in_order(old(self)@.denied.dom()).len(),
            forall|i: int|
                0 <= i < r.len() ==> {
                    let row = old(self)@.denied[in_order(old(self)@.denied.dom())[i]];
                    &&& (#[trigger] r@[i]).0 == row.item.batch
                    &&& r@[i].1 == row.item.entries.dom().len()
                },
    {
        let mut denied: OrdMap<u64, HeldRow> = OrdMap::new();
        std::mem::swap(&mut denied, &mut self.denied);
        let ghost start = self@;
        let ghost ks = in_order(denied@.dom());
        let n: usize = denied.len();
        let mut out: Vec<(BatchId, usize)> = Vec::new();
        let mut i: usize = 0;
        assert(ks.take(0) =~= Seq::empty());
        while i < n
            invariant
                i <= n,
                n == denied@.dom().len(),
                n == ks.len(),
                denied@ == old(self)@.denied,
                ks == in_order(denied@.dom()),
                self@ == start.returned(denied@, ks.take(i as int)),
                out.len() == i,
                forall|j: int|
                    0 <= j < i ==> (#[trigger] out@[j]).0 == denied@[ks[j]].item.batch && out@[j].1
                        == denied@[ks[j]].item.entries.dom().len(),
            decreases n - i,
        {
            let at: u64 = *denied.key_at(i);
            let row = denied.value_at(i).dup();
            proof {
                lemma_take_contains(ks, i as int, at);
            }
            let batch = row.item.batch;
            self.changed.note(&(batch, HeldState::Denied { at }));
            out.push((batch, row.item.entries.len()));
            self.reinstate(row);
            i = i + 1;
        }
        assert(ks.take(i as int) =~= ks);
        assert(start == (QuarantineView { denied: Map::empty(), ..old(self)@ }));
        out
    }

    /// Puts a denied item back with every version it held. Its versions arrive again.
    fn reinstate(&mut self, row: HeldRow)
        ensures
            final(self)@ == old(self)@.reinstated(row@),
    {
        let batch = row.item.batch;
        let ghost start = self@;
        let ghost ks = in_order(row@.versions.dom());
        let n: usize = row.versions.len();
        let mut i: usize = 0;
        assert(ks.take(0) =~= Seq::empty());
        while i < n
            invariant
                i <= n,
                n == row.versions@.dom().len(),
                n == ks.len(),
                ks == in_order(row@.versions.dom()),
                self@ == start.recorded_rows(row@.versions, ks.take(i as int), batch),
            decreases n - i,
        {
            let path = row.versions.key_at(i);
            let list = row.versions.value_at(i);
            let ghost l = list.deep_view();
            let ghost mid = self@;
            proof {
                lemma_take_contains(ks, i as int, path@);
            }
            let mut j: usize = 0;
            assert(l.take(0) =~= Seq::empty());
            while j < list.len()
                invariant
                    j <= list.len(),
                    l == list.deep_view(),
                    self@ == mid.recorded_again(path@, l.take(j as int), batch),
                decreases list.len() - j,
            {
                assert(l.take(j + 1).drop_last() =~= l.take(j as int));
                assert(l.take(j + 1).last() == list@[j as int]@);
                let q = &list[j];
                self.record(path, q.version.dup(), q.stamp, batch);
                j = j + 1;
            }
            assert(l.take(j as int) =~= l);
            i = i + 1;
        }
        assert(ks.take(i as int) =~= ks);
        self.hold(row.item);
    }

    /// Every row, held and denied.
    pub fn rows(&self) -> (r: OrdMap<(BatchId, HeldState), HeldRow>)
        ensures
            r@ == self@.rows(),
    {
        let mut out: OrdMap<(BatchId, HeldState), HeldRow> = OrdMap::new();
        let n: usize = self.items.len();
        let ghost ks = in_order(self@.items.dom());
        let mut i: usize = 0;
        proof {
            lemma_order_facts(self@.items.dom());
        }
        while i < n
            invariant
                i <= n,
                n == self.items@.dom().len(),
                n == ks.len(),
                self@.items == self.items@,
                ks == in_order(self@.items.dom()),
                forall|k: (BatchId, HeldState)| #[trigger]
                    out@.contains_key(k) <==> k.1 == HeldState::Held && ks.take(i as int).contains(
                        k.0,
                    ),
                forall|k: (BatchId, HeldState)| #[trigger]
                    out@.contains_key(k) ==> out@[k] == self@.row(k.0)->0,
            decreases n - i,
        {
            let batch: BatchId = *self.items.key_at(i);
            if let Some(row) = self.row(batch) {
                out.insert((batch, HeldState::Held), row);
            }
            proof {
                assert forall|k: (BatchId, HeldState)| #[trigger]
                    out@.contains_key(k) <==> k.1 == HeldState::Held && ks.take(i + 1).contains(
                        k.0,
                    ) by {
                    lemma_take_contains(ks, i as int, k.0);
                }
            }
            i = i + 1;
        }
        assert(ks.take(i as int) =~= ks);
        let ghost held = out@;
        let m: usize = self.denied.len();
        let ghost ds = in_order(self@.denied.dom());
        let mut j: usize = 0;
        proof {
            lemma_order_facts(self@.denied.dom());
        }
        while j < m
            invariant
                j <= m,
                m == self.denied@.dom().len(),
                m == ds.len(),
                self@.denied == self.denied@,
                ds == in_order(self@.denied.dom()),
                forall|i: int| 0 <= i < ds.len() ==> self@.denied.contains_key(#[trigger] ds[i]),
                forall|k: (BatchId, HeldState)| #[trigger]
                    held.contains_key(k) <==> k.1 == HeldState::Held && self@.items.contains_key(
                        k.0,
                    ),
                forall|k: (BatchId, HeldState)| #[trigger]
                    held.contains_key(k) ==> held[k] == self@.row(k.0)->0,
                forall|k: (BatchId, HeldState)| #[trigger]
                    out@.contains_key(k) <==> match k.1 {
                        HeldState::Held => held.contains_key(k),
                        HeldState::Denied { at } => ds.take(j as int).contains(at)
                            && self@.denied[at].item.batch == k.0,
                    },
                forall|k: (BatchId, HeldState)| #[trigger]
                    out@.contains_key(k) ==> out@[k] == match k.1 {
                        HeldState::Held => held[k],
                        HeldState::Denied { at } => self@.denied[at],
                    },
            decreases m - j,
        {
            let at: u64 = *self.denied.key_at(j);
            let row = self.denied.value_at(j);
            out.insert((row.item.batch, HeldState::Denied { at }), row.dup());
            proof {
                assert forall|k: (BatchId, HeldState)| #[trigger]
                    out@.contains_key(k) <==> match k.1 {
                        HeldState::Held => held.contains_key(k),
                        HeldState::Denied { at } => ds.take(j + 1).contains(at)
                            && self@.denied[at].item.batch == k.0,
                    } by {
                    match k.1 {
                        HeldState::Held => {},
                        HeldState::Denied { at } => {
                            lemma_take_contains(ds, j as int, at);
                        },
                    }
                }
            }
            j = j + 1;
        }
        assert(ds.take(j as int) =~= ds);
        assert(out@ =~= self@.rows());
        out
    }

    /// A list in the order of its arrival numbers.
    fn sort_by_arrival(list: &Vec<(BatchId, Quarantined)>) -> (r: Vec<(BatchId, Quarantined)>)
        ensures
            r.deep_view() == by_arrival(list.deep_view()),
    {
        let ghost l = list.deep_view();
        let mut order: OrdSet<(u64, u64)> = OrdSet::new();
        let mut i: usize = 0;
        while i < list.len()
            invariant
                i <= list.len(),
                l == list.deep_view(),
                forall|k: (u64, u64)| #[trigger]
                    order@.contains(k) <==> arrival_keys(l).contains(k) && k.1 < i,
            decreases list.len() - i,
        {
            assert(l[i as int] == list@[i as int].deep_view());
            order.insert((list[i].1.arrival, i as u64));
            i = i + 1;
        }
        assert(order@ =~= arrival_keys(l));
        let ghost ks = in_order(order@);
        let n: usize = order.len();
        let mut out: Vec<(BatchId, Quarantined)> = Vec::new();
        let mut j: usize = 0;
        while j < n
            invariant
                j <= n,
                n == order@.len(),
                n == ks.len(),
                ks == in_order(order@),
                order@ == arrival_keys(l),
                l == list.deep_view(),
                out.len() == j,
                forall|x: int|
                    0 <= x < j ==> (#[trigger] out@[x]).deep_view() == l[ks[x].1 as int],
            decreases n - j,
        {
            let key = order.at(j);
            let at: u64 = key.1;
            assert(key.key() == ks[j as int]);
            assert(arrival_keys(l).contains(ks[j as int]));
            assert(at == ks[j as int].1);
            assert(l.len() == list.len());
            assert(at as usize == at);
            assert(l[at as int] == list@[at as int].deep_view());
            out.push(list[at as usize].dup());
            j = j + 1;
        }
        assert(out.deep_view() =~= by_arrival(l));
        out
    }

    /// Puts an item's versions behind those that are there.
    fn add_versions(&mut self, more: &OrdMap<RelPath, Vec<Quarantined>>, batch: BatchId)
        ensures
            final(self)@ == (QuarantineView {
                versions: QuarantineView::versions_with(old(self)@.versions, more@, batch),
                ..old(self)@
            }),
    {
        let ghost start = old(self)@;
        let n: usize = more.len();
        let ghost ks = in_order(more@.dom());
        let mut i: usize = 0;
        proof {
            lemma_order_facts(more@.dom());
            let none = more@.restrict(ks.take(0).to_set());
            assert(self@.versions =~= QuarantineView::versions_with(start.versions, none, batch));
        }
        while i < n
            invariant
                i <= n,
                n == more@.dom().len(),
                n == ks.len(),
                ks == in_order(more@.dom()),
                ks.no_duplicates(),
                self@ == (QuarantineView { versions: self@.versions, ..start }),
                self@.versions == QuarantineView::versions_with(
                    start.versions,
                    more@.restrict(ks.take(i as int).to_set()),
                    batch,
                ),
            decreases n - i,
        {
            let path = more.key_at(i);
            let held = more.value_at(i);
            let ghost h = held.deep_view();
            proof {
                assert forall|x: Seq<u8>|
                    ks.take(i + 1).to_set().contains(x) <==> ks.take(i as int).to_set().contains(x)
                        || x == path@ by {
                    lemma_take_contains(ks, i as int, x);
                }
                lemma_take_contains(ks, i as int, path@);
            }
            let mut list: Vec<(BatchId, Quarantined)> = match self.versions.get(path) {
                Some(l) => l.dup(),
                None => Vec::new(),
            };
            let ghost base = list.deep_view();
            assert(base =~= start.list(path@));
            let mut j: usize = 0;
            assert(base + tagged(h, batch).take(0) =~= base);
            while j < held.len()
                invariant
                    j <= held.len(),
                    h == held.deep_view(),
                    list.deep_view() == base + tagged(h, batch).take(j as int),
                decreases held.len() - j,
            {
                let ghost before = list.deep_view();
                list.push((batch, held[j].dup()));
                proof {
                    assert(h[j as int] == held@[j as int]@);
                    assert(list.deep_view() =~= before.push((batch, h[j as int])));
                    assert(list.deep_view() =~= base + tagged(h, batch).take(j + 1));
                }
                j = j + 1;
            }
            assert(tagged(h, batch).take(j as int) =~= tagged(h, batch));
            self.versions.insert(path.dup(), list);
            assert(self@.versions =~= QuarantineView::versions_with(
                start.versions,
                more@.restrict(ks.take(i + 1).to_set()),
                batch,
            ));
            i = i + 1;
        }
        proof {
            assert(ks.take(i as int) =~= ks);
            assert(ks.to_set() =~= more@.dom());
            assert(more@.restrict(more@.dom()) =~= more@);
        }
    }

    /// Rebuilds a quarantine from its rows and the last arrival number. The versions of each path
    /// are put in the order of arrival, whatever items they belong to.
    pub fn from_rows(rows: OrdMap<(BatchId, HeldState), HeldRow>, arrivals: u64) -> (r: Quarantine)
        ensures
            r@ == QuarantineView::rebuilt(rows@, arrivals),
    {
        let mut q = Quarantine {
            items: OrdMap::new(),
            versions: OrdMap::new(),
            denied: OrdMap::new(),
            arrivals,
            changed: Changed::default(),
        };
        let ghost start = q@;
        assert(start == (QuarantineView { arrivals, ..QuarantineView::initial() }));
        let n: usize = rows.len();
        let ghost ks = in_order(rows@.dom());
        let mut i: usize = 0;
        assert(ks.take(0) =~= Seq::empty());
        while i < n
            invariant
                i <= n,
                n == rows@.dom().len(),
                n == ks.len(),
                ks == in_order(rows@.dom()),
                q@ == start.with_rows(rows@, ks.take(i as int)),
            decreases n - i,
        {
            let key = rows.key_at(i);
            let row = rows.value_at(i);
            proof {
                lemma_take_contains(ks, i as int, ks[i as int]);
            }
            match key.1 {
                HeldState::Held => {
                    q.add_versions(&row.versions, key.0);
                    q.items.insert(key.0, row.item.dup());
                },
                HeldState::Denied { at } => {
                    q.denied.insert(at, row.dup());
                },
            }
            i = i + 1;
        }
        assert(ks.take(i as int) =~= ks);
        q.arrange();
        q
    }

    /// Puts the versions of every path in the order of arrival.
    fn arrange(&mut self)
        ensures
            final(self)@ == old(self)@.arranged(),
    {
        let mut sorted: OrdMap<RelPath, Vec<(BatchId, Quarantined)>> = OrdMap::new();
        let n: usize = self.versions.len();
        let ghost ks = in_order(self@.versions.dom());
        let mut i: usize = 0;
        proof {
            lemma_order_facts(self@.versions.dom());
        }
        while i < n
            invariant
                i <= n,
                n == self.versions@.dom().len(),
                n == ks.len(),
                self@.versions == self.versions@,
                ks == in_order(self@.versions.dom()),
                forall|p: Seq<u8>| #[trigger]
                    sorted@.contains_key(p) <==> ks.take(i as int).contains(p),
                forall|p: Seq<u8>| #[trigger]
                    sorted@.contains_key(p) ==> sorted@[p] == by_arrival(self@.versions[p]),
            decreases n - i,
        {
            let path = self.versions.key_at(i);
            let list = self.versions.value_at(i);
            sorted.insert(path.dup(), Self::sort_by_arrival(list));
            proof {
                assert forall|p: Seq<u8>| #[trigger]
                    sorted@.contains_key(p) <==> ks.take(i + 1).contains(p) by {
                    lemma_take_contains(ks, i as int, p);
                }
            }
            i = i + 1;
        }
        assert(ks.take(i as int) =~= ks);
        assert(sorted@ =~= self@.arranged().versions);
        self.versions = sorted;
    }

    /// The first part in which two quarantines differ, by name, or `None` if they are equal. Rows
    /// noted as changed do not count.
    pub fn first_difference(&self, other: &Quarantine) -> (r: Option<&'static str>)
        ensures
            r == if self@.items != other@.items {
                Some("quarantine.items")
            } else if self@.versions != other@.versions {
                Some("quarantine.versions")
            } else if self@.denied != other@.denied {
                Some("quarantine.denied")
            } else if self@.arrivals != other@.arrivals {
                Some("quarantine.arrivals")
            } else {
                None
            },
    {
        let d = differs("quarantine.items", self.items.same(&other.items));
        if d.is_some() {
            return d;
        }
        let d = differs("quarantine.versions", self.versions.same(&other.versions));
        if d.is_some() {
            return d;
        }
        let d = differs("quarantine.denied", self.denied.same(&other.denied));
        if d.is_some() {
            return d;
        }
        differs("quarantine.arrivals", self.arrivals == other.arrivals)
    }

    /// Rows that changed since the last call, each as it stands, in key order.
    pub fn drain_changes(&mut self) -> (r: Vec<(BatchId, HeldState, Option<HeldRow>)>)
        ensures
            final(self)@ == (QuarantineView { changed: Set::empty(), ..old(self)@ }),
            r.deep_view() == Seq::new(
                in_order(old(self)@.changed).len(),
                |i: int|
                    {
                        let k = in_order(old(self)@.changed)[i];
                        (k.0, k.1, old(self)@.row_at(k.0, k.1))
                    },
            ),
    {
        let keys = self.changed.take();
        let ghost before = old(self)@;
        let ghost ks = in_order(before.changed);
        let mut out: Vec<(BatchId, HeldState, Option<HeldRow>)> = Vec::new();
        let mut i: usize = 0;
        while i < keys.len()
            invariant
                i <= keys.len(),
                keys.len() == ks.len(),
                forall|j: int| 0 <= j < keys.len() ==> (#[trigger] keys@[j]).key() == ks[j],
                self@ == (QuarantineView { changed: Set::empty(), ..before }),
                out.len() == i,
                forall|j: int|
                    0 <= j < i ==> (#[trigger] out@[j]).deep_view() == (
                        ks[j].0,
                        ks[j].1,
                        before.row_at(ks[j].0, ks[j].1),
                    ),
            decreases keys.len() - i,
        {
            let batch = keys[i].0;
            let state = keys[i].1;
            assert(keys@[i as int].key() == ks[i as int]);
            let row = match state {
                HeldState::Held => self.row(batch),
                HeldState::Denied { at } => match self.denied.get(&at) {
                    Some(row) => Some(row.dup()),
                    None => None,
                },
            };
            proof {
                if before.items.contains_key(batch) {
                    assert((self@.row(batch)->0).versions =~= (before.row(batch)->0).versions);
                }
            }
            assert(row.deep_view() == before.row_at(batch, state));
            out.push((batch, state, row));
            i = i + 1;
        }
        assert(out.deep_view() =~= Seq::new(
            ks.len(),
            |i: int|
                {
                    let k = ks[i];
                    (k.0, k.1, before.row_at(k.0, k.1))
                },
        ));
        out
    }
}

proof fn lemma_first_match_stays(l: Arrivals, n: int, version: Vector)
    requires
        0 <= n <= l.len(),
        first_match(l.take(n), version) is Some,
    ensures
        first_match(l, version) == first_match(l.take(n), version),
    decreases l.len(),
{
    if n == l.len() {
        assert(l.take(n) =~= l);
    } else {
        let t = l.drop_last();
        assert(t.take(n) =~= l.take(n));
        lemma_first_match_stays(t, n, version);
    }
}

} // verus!
