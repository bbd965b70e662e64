//! The want-list: what this machine still has to fetch or commit, and where from.
//!
//! There is one [`Want`] a path: the entry to end up with, how to apply it, the members that
//! announced exactly that version, and a state.
//!
//! Selection: among connected sources that are not excluded the best tier wins, ties by smaller
//! node; a source on a tier whose limit the file exceeds is skipped. Fetches are assigned in the
//! order of tier, node and path, within the limits for a peer and for the folder; a want whose
//! best source has no free slot takes the next one.
//!
//! Order of commits: nothing is created before its directory in the list, and no directory is
//! deleted before what it contains.

use crate::batch::{ApplyItem, ApplyMode, ItemView};
use crate::conflict::{ConflictCopy, ConflictCopyView};
use crate::entry::{Entry, EntryView, Kind};
use crate::id::{BatchId, NodeId};
use crate::order::{in_order, lemma_order_facts, lemma_take_contains, Ordered};
use crate::ordmap::{Key, OrdMap, OrdSet, Value};
use crate::path::{ancestor, RelPath};
use crate::rules::Rules;
use crate::time::{COMMIT_DEADLINE_NANOS, FETCH_STALL_NANOS, Timestamp};
use crate::version::{relation, Relation, Vector, Version};
use vstd::prelude::*;

verus! {

/// How a peer is currently reached. Best first.
#[derive(Clone, Copy, Debug, PartialEq, Eq, PartialOrd, Ord, Hash, Structural)]
pub enum Tier {
    Lan,
    Direct,
    Relay,
}

impl Tier {
    /// The largest file this tier carries; `None` for no limit.
    pub open spec fn most(self, rules: Rules) -> Option<u64> {
        match self {
            Tier::Lan => None,
            Tier::Direct => Some(rules.direct_limit),
            Tier::Relay => Some(rules.relay_limit),
        }
    }

    /// Whether a file of this size may be fetched on this tier.
    pub open spec fn carries(self, rules: Rules, size: u64) -> bool {
        self.most(rules) is Some ==> size <= self.most(rules)->0
    }

    /// The place of the tier in the order.
    pub open spec fn rank(self) -> int {
        match self {
            Tier::Lan => 0,
            Tier::Direct => 1,
            Tier::Relay => 2,
        }
    }

    /// The largest file this tier carries under `rules`; `None` for no limit.
    pub fn limit(self, rules: &Rules) -> (r: Option<u64>)
        ensures
            r == self.most(*rules),
    {
        match self {
            Tier::Lan => None,
            Tier::Direct => Some(rules.direct_limit),
            Tier::Relay => Some(rules.relay_limit),
        }
    }

    /// True if a file of `size` may be fetched on this tier.
    pub fn allows(self, rules: &Rules, size: u64) -> (r: bool)
        ensures
            r == self.carries(*rules, size),
    {
        match self.limit(rules) {
            Some(limit) => size <= limit,
            None => true,
        }
    }
}

impl DeepView for Tier {
    type V = Tier;

    open spec fn deep_view(&self) -> Tier {
        *self
    }
}

impl Value for Tier {
    fn dup(&self) -> (r: Tier) {
        *self
    }

    fn same(&self, other: &Tier) -> (r: bool) {
        *self == *other
    }
}

impl Ordered for Tier {
    open spec fn before(self, other: Tier) -> bool {
        self.rank() < other.rank()
    }

    proof fn irreflexive(a: Tier) {
    }

    proof fn transitive(a: Tier, b: Tier, c: Tier) {
    }

    proof fn total(a: Tier, b: Tier) {
    }
}

impl Key for Tier {
    type O = Tier;

    open spec fn key(&self) -> Tier {
        *self
    }

    fn less(&self, other: &Tier) -> (r: bool) {
        match (self, other) {
            (Tier::Lan, Tier::Direct) => true,
            (Tier::Lan, Tier::Relay) => true,
            (Tier::Direct, Tier::Relay) => true,
            _ => false,
        }
    }

    fn copy_key(&self) -> (r: Tier) {
        *self
    }
}

/// Where a want is in its life.
#[derive(Clone, Copy, Debug, PartialEq, Eq, Hash, Structural)]
pub enum WantState {
    /// Ready to fetch, or with content in hand to commit, as soon as it can.
    Wanted,
    /// Content in hand or not needed, waiting for another commit.
    Blocked,
    /// Every available source is on a tier whose limit the file exceeds; `need` is the least
    /// demanding tier that would allow it.
    Deferred { need: Tier },
    /// No connected member announced this version.
    NoSource,
    /// The host is fetching from `from`; stalls at `deadline`.
    Fetching { from: NodeId, deadline: Timestamp },
    /// The host is committing; overdue at `deadline`.
    Committing { deadline: Timestamp },
    /// Two hash mismatches.
    GaveUp,
}

impl WantState {
    /// Whether the state is short-lived.
    pub open spec fn short_lived(self) -> bool {
        self is Wanted || self is Blocked || self is Fetching || self is Committing
    }

    /// When the host's operation is overdue.
    pub open spec fn due(self) -> Option<Timestamp> {
        match self {
            WantState::Fetching { from, deadline } => Some(deadline),
            WantState::Committing { deadline } => Some(deadline),
            _ => None,
        }
    }

    /// The state after a restart.
    pub open spec fn settled(self) -> WantState {
        if self is Fetching || self is Committing || self is Blocked {
            WantState::Wanted
        } else {
            self
        }
    }

    /// Short-lived states hide observations of the path.
    pub fn in_flight(self) -> (r: bool)
        ensures
            r == self.short_lived(),
    {
        matches!(
            self,
            WantState::Wanted | WantState::Blocked | WantState::Fetching { .. } | WantState::Committing { .. }
        )
    }

    fn deadline(self) -> (r: Option<Timestamp>)
        ensures
            r == self.due(),
    {
        match self {
            WantState::Fetching { from: _, deadline } => Some(deadline),
            WantState::Committing { deadline } => Some(deadline),
            _ => None,
        }
    }
}

impl DeepView for WantState {
    type V = WantState;

    open spec fn deep_view(&self) -> WantState {
        *self
    }
}

/// One path this machine still has to bring up to date.
#[derive(Clone, Debug, PartialEq, Eq)]
pub struct Want {
    /// What to end up with: the incoming entry, or the merged one for a conflict.
    pub entry: Entry,
    /// The entry as it was received.
    pub received: Entry,
    pub mode: ApplyMode,
    /// Where the commit moves the losing local file, if this resolves a conflict.
    pub conflict: Option<ConflictCopy>,
    /// The batch the version arrived in.
    pub batch: BatchId,
    pub source: NodeId,
    pub seq_high: u64,
    /// Members that announced exactly this version. One that does not have it any more is
    /// removed; announcing it again puts it back.
    pub sources: OrdSet<NodeId>,
    /// Members that answered that they do not have it.
    pub answered: OrdSet<NodeId>,
    /// Sources that served other content: never asked again for this want.
    pub excluded: OrdSet<NodeId>,
    pub mismatches: u8,
    /// Content has been fetched and verified; only the commit remains.
    pub fetched: bool,
    /// Made by a revert: finding nothing at the path is the move to the trash.
    pub restoring: bool,
    pub state: WantState,
}

/// What a want stands for.
pub struct WantView {
    pub entry: EntryView,
    pub received: EntryView,
    pub mode: ApplyMode,
    pub conflict: Option<ConflictCopyView>,
    pub batch: BatchId,
    pub source: NodeId,
    pub seq_high: u64,
    pub sources: Set<NodeId>,
    pub answered: Set<NodeId>,
    pub excluded: Set<NodeId>,
    pub mismatches: u8,
    pub fetched: bool,
    pub restoring: bool,
    pub state: WantState,
}

impl View for Want {
    type V = WantView;

    open spec fn view(&self) -> WantView {
        WantView {
            entry: self.entry@,
            received: self.received@,
            mode: self.mode,
            conflict: self.conflict.deep_view(),
            batch: self.batch,
            source: self.source,
            seq_high: self.seq_high,
            sources: self.sources@,
            answered: self.answered@,
            excluded: self.excluded@,
            mismatches: self.mismatches,
            fetched: self.fetched,
            restoring: self.restoring,
            state: self.state,
        }
    }
}

impl DeepView for Want {
    type V = WantView;

    open spec fn deep_view(&self) -> WantView {
        self.view()
    }
}

impl Value for Want {
    fn dup(&self) -> (r: Want) {
        Want {
            entry: self.entry.dup(),
            received: self.received.dup(),
            mode: self.mode,
            conflict: self.conflict.dup(),
            batch: self.batch,
            source: self.source,
            seq_high: self.seq_high,
            sources: self.sources.dup(),
            answered: self.answered.dup(),
            excluded: self.excluded.dup(),
            mismatches: self.mismatches,
            fetched: self.fetched,
            restoring: self.restoring,
            state: self.state,
        }
    }

    fn same(&self, other: &Want) -> (r: bool) {
        self.entry.same(&other.entry) && self.received.same(&other.received) && self.mode
            == other.mode && self.conflict.same(&other.conflict) && self.batch == other.batch
            && self.source == other.source && self.seq_high == other.seq_high && self.sources.same(
            &other.sources,
        ) && self.answered.same(&other.answered) && self.excluded.same(&other.excluded)
            && self.mismatches == other.mismatches && self.fetched == other.fetched
            && self.restoring == other.restoring && self.state == other.state
    }
}

impl WantView {
    /// Whether content must be fetched before the commit.
    pub open spec fn needs_fetch(self) -> bool {
        self.mode == ApplyMode::Fetch && !self.fetched
    }

    /// Whether the want creates or replaces a directory.
    pub open spec fn makes_dir(self) -> bool {
        !self.entry.deleted && self.entry.kind == Kind::Dir
    }

    /// The want for an item.
    pub open spec fn of_item(
        item: ItemView,
        received: EntryView,
        batch: BatchId,
        source: NodeId,
        seq_high: u64,
    ) -> WantView {
        WantView {
            entry: item.entry,
            received,
            mode: item.mode,
            conflict: item.conflict,
            batch,
            source,
            seq_high,
            sources: Set::empty().insert(source).insert(item.entry.modified_by),
            answered: Set::empty(),
            excluded: Set::empty(),
            mismatches: 0,
            fetched: false,
            restoring: false,
            state: WantState::Wanted,
        }
    }

    /// The want with one more source.
    pub open spec fn with_source(self, by: NodeId) -> WantView {
        WantView { sources: self.sources.insert(by), answered: self.answered.remove(by), ..self }
    }

    /// The want after the host's report on a fetch.
    pub open spec fn reported(self, outcome: FetchReport) -> WantView {
        match outcome {
            FetchReport::Done => WantView { fetched: true, state: WantState::Wanted, ..self },
            FetchReport::NotAvailable => match self.state {
                WantState::Fetching { from, deadline } => WantView {
                    sources: self.sources.remove(from),
                    answered: self.answered.insert(from),
                    state: WantState::Wanted,
                    ..self
                },
                _ => WantView { state: WantState::Wanted, ..self },
            },
            FetchReport::HashMismatch => {
                let n = if self.mismatches < 255 {
                    (self.mismatches + 1) as u8
                } else {
                    255
                };
                WantView {
                    excluded: match self.state {
                        WantState::Fetching { from, deadline } => self.excluded.insert(from),
                        _ => self.excluded,
                    },
                    mismatches: n,
                    state: if n >= 2 {
                        WantState::GaveUp
                    } else {
                        WantState::Wanted
                    },
                    ..self
                }
            },
        }
    }
}

impl Want {
    /// The path of the want.
    pub fn path(&self) -> (r: &RelPath)
        ensures
            r@ == self@.entry.path,
    {
        &self.entry.path
    }

    /// The version of the want.
    pub fn version(&self) -> (r: &Version)
        ensures
            r@ == self@.entry.version,
    {
        &self.entry.version
    }

    /// True if the path is in flight.
    pub fn in_flight(&self) -> (r: bool)
        ensures
            r == self@.state.short_lived(),
    {
        self.state.in_flight()
    }

    /// True if content must be fetched before the commit.
    pub fn needs_fetch(&self) -> (r: bool)
        ensures
            r == self@.needs_fetch(),
    {
        self.mode == ApplyMode::Fetch && !self.fetched
    }

    /// True if this want removes the entry.
    pub fn is_delete(&self) -> (r: bool)
        ensures
            r == self@.entry.deleted,
    {
        self.entry.deleted
    }

    /// True if this want creates or replaces a directory.
    pub fn is_dir_create(&self) -> (r: bool)
        ensures
            r == self@.makes_dir(),
    {
        !self.entry.deleted && self.entry.kind == Kind::Dir
    }

    fn from_item(
        item: ApplyItem,
        received: Entry,
        batch: BatchId,
        source: NodeId,
        seq_high: u64,
    ) -> (r: Want)
        ensures
            r@ == WantView::of_item(item@, received@, batch, source, seq_high),
    {
        let ApplyItem::Apply { entry, mode, conflict } = item;
        let mut sources: OrdSet<NodeId> = OrdSet::new();
        sources.insert(source);
        sources.insert(entry.modified_by);
        Want {
            entry,
            received,
            mode,
            conflict,
            batch,
            source,
            seq_high,
            sources,
            answered: OrdSet::new(),
            excluded: OrdSet::new(),
            mismatches: 0,
            fetched: false,
            restoring: false,
            state: WantState::Wanted,
        }
    }
}

/// The host's report on a fetch.
#[derive(Clone, Copy, Debug, PartialEq, Eq, Hash, Structural)]
pub enum FetchReport {
    Done,
    NotAvailable,
    HashMismatch,
}

/// What the host should be asked to do for a want.
#[derive(Clone, Debug, PartialEq, Eq)]
pub enum WantStep {
    Fetch { path: RelPath, version: Version, from: NodeId },
    /// Put the content in place.
    Commit(Box<Want>),
    /// Adopt the version; nothing changes on disk.
    Adopt(Box<Want>),
}

/// What a step stands for.
pub enum WantStepView {
    Fetch { path: Seq<u8>, version: Vector, from: NodeId },
    Commit(WantView),
    Adopt(WantView),
}

impl View for WantStep {
    type V = WantStepView;

    open spec fn view(&self) -> WantStepView {
        match self {
            WantStep::Fetch { path, version, from } => WantStepView::Fetch {
                path: path@,
                version: version@,
                from: *from,
            },
            WantStep::Commit(w) => WantStepView::Commit((**w)@),
            WantStep::Adopt(w) => WantStepView::Adopt((**w)@),
        }
    }
}

impl DeepView for WantStep {
    type V = WantStepView;

    open spec fn deep_view(&self) -> WantStepView {
        self.view()
    }
}

// ---- the model --------------------------------------------------------------

/// Wants by path.
pub type Wants = Map<Seq<u8>, WantView>;

/// What a want-list stands for.
pub struct WantListView {
    pub wants: Wants,
    /// Paths whose want changed since they were last reported, in order.
    pub changed: Seq<Seq<u8>>,
}

/// Whether a want is being fetched.
pub open spec fn is_fetching(w: WantView) -> bool {
    w.state is Fetching
}

/// Whether a want is being fetched from a node.
pub open spec fn is_fetching_from(w: WantView, node: NodeId) -> bool {
    w.state is Fetching && w.state->Fetching_from == node
}

/// How many of some wants are being fetched.
pub open spec fn fetching_among(m: Wants, ks: Seq<Seq<u8>>) -> nat
    decreases ks.len(),
{
    if ks.len() == 0 {
        0
    } else {
        fetching_among(m, ks.drop_last()) + if is_fetching(m[ks.last()]) {
            1nat
        } else {
            0nat
        }
    }
}

/// How many of some wants are being fetched from a node.
pub open spec fn fetching_from_among(m: Wants, ks: Seq<Seq<u8>>, node: NodeId) -> nat
    decreases ks.len(),
{
    if ks.len() == 0 {
        0
    } else {
        fetching_from_among(m, ks.drop_last(), node) + if is_fetching_from(m[ks.last()], node) {
            1nat
        } else {
            0nat
        }
    }
}

/// The paths among some whose wants are overdue.
pub open spec fn overdue_among(m: Wants, ks: Seq<Seq<u8>>, now: Timestamp) -> Seq<Seq<u8>>
    decreases ks.len(),
{
    if ks.len() == 0 {
        Seq::empty()
    } else {
        let rest = overdue_among(m, ks.drop_last(), now);
        match m[ks.last()].state.due() {
            Some(deadline) => if deadline.0 <= now.0 {
                rest.push(ks.last())
            } else {
                rest
            },
            None => rest,
        }
    }
}

/// The paths among some whose wants are being fetched from a node.
pub open spec fn served_among(m: Wants, ks: Seq<Seq<u8>>, node: NodeId) -> Seq<Seq<u8>>
    decreases ks.len(),
{
    if ks.len() == 0 {
        Seq::empty()
    } else if is_fetching_from(m[ks.last()], node) {
        served_among(m, ks.drop_last(), node).push(ks.last())
    } else {
        served_among(m, ks.drop_last(), node)
    }
}

/// The earliest deadline of some wants.
pub open spec fn deadline_among(m: Wants, ks: Seq<Seq<u8>>) -> Option<Timestamp>
    decreases ks.len(),
{
    if ks.len() == 0 {
        None
    } else {
        let rest = deadline_among(m, ks.drop_last());
        match m[ks.last()].state.due() {
            Some(d) => match rest {
                Some(r) => if r.0 <= d.0 {
                    Some(r)
                } else {
                    Some(d)
                },
                None => Some(d),
            },
            None => rest,
        }
    }
}

/// A list without repetitions, in the order of first occurrence.
pub open spec fn distinct<A>(q: Seq<A>) -> Seq<A>
    decreases q.len(),
{
    if q.len() == 0 {
        Seq::empty()
    } else if q.drop_last().contains(q.last()) {
        distinct(q.drop_last())
    } else {
        distinct(q.drop_last()).push(q.last())
    }
}

/// A list of changes with one more, which is not repeated at once.
pub open spec fn noted(changed: Seq<Seq<u8>>, path: Seq<u8>) -> Seq<Seq<u8>> {
    if changed.len() > 0 && changed.last() == path {
        changed
    } else {
        changed.push(path)
    }
}

/// The connected sources that may be asked, with their tiers.
pub open spec fn candidates(w: WantView, peers: Map<NodeId, Tier>) -> Set<(Tier, NodeId)> {
    Set::new(
        |k: (Tier, NodeId)|
            w.sources.contains(k.1) && !w.excluded.contains(k.1) && peers.contains_key(k.1)
                && peers[k.1] == k.0,
    )
}

/// The candidates whose tiers carry the file.
pub open spec fn allowed(w: WantView, rules: Rules, peers: Map<NodeId, Tier>) -> Set<
    (Tier, NodeId),
> {
    Set::new(
        |k: (Tier, NodeId)|
            candidates(w, peers).contains(k) && k.0.carries(rules, w.entry.size),
    )
}

/// The least demanding tier that carries a file.
pub open spec fn needed_tier(rules: Rules, size: u64) -> Tier {
    if Tier::Relay.carries(rules, size) {
        Tier::Relay
    } else if Tier::Direct.carries(rules, size) {
        Tier::Direct
    } else {
        Tier::Lan
    }
}

/// The sources that a want may be fetched from.
#[verifier::ext_equal]
pub enum SelectionView {
    /// Allowed sources, best first. Never empty.
    Sources(Seq<(Tier, NodeId)>),
    NoSource,
    Deferred(Tier),
}

/// The sources that a want may be fetched from.
pub open spec fn selected(w: WantView, rules: Rules, peers: Map<NodeId, Tier>) -> SelectionView {
    if candidates(w, peers).len() == 0 {
        SelectionView::NoSource
    } else if allowed(w, rules, peers).len() == 0 {
        SelectionView::Deferred(needed_tier(rules, w.entry.size))
    } else {
        SelectionView::Sources(in_order(allowed(w, rules, peers)))
    }
}

/// Whether a want waits for a source.
pub open spec fn seeks(w: WantView) -> bool {
    w.needs_fetch() && (w.state is Wanted || w.state is Deferred || w.state is NoSource)
}

/// Whether a want waits for nothing but its turn to be committed.
pub open spec fn ready(w: WantView) -> bool {
    !w.needs_fetch() && (w.state is Wanted || w.state is Blocked || w.state is Deferred
        || w.state is NoSource)
}

/// The creations among some wants that are ready.
pub open spec fn creates_among(m: Wants, ks: Seq<Seq<u8>>) -> Seq<Seq<u8>>
    decreases ks.len(),
{
    if ks.len() == 0 {
        Seq::empty()
    } else if ready(m[ks.last()]) && !m[ks.last()].entry.deleted {
        creates_among(m, ks.drop_last()).push(ks.last())
    } else {
        creates_among(m, ks.drop_last())
    }
}

/// The deletions among some wants that are ready.
pub open spec fn deletes_among(m: Wants, ks: Seq<Seq<u8>>) -> Seq<Seq<u8>>
    decreases ks.len(),
{
    if ks.len() == 0 {
        Seq::empty()
    } else if ready(m[ks.last()]) && m[ks.last()].entry.deleted {
        deletes_among(m, ks.drop_last()).push(ks.last())
    } else {
        deletes_among(m, ks.drop_last())
    }
}

/// Whether committing a want must wait: a creation for that of a directory above it, the deletion
/// of a directory for that of something in it.
pub open spec fn gated(m: Wants, w: WantView) -> bool {
    if w.entry.deleted {
        w.entry.kind == Kind::Dir && exists|p: Seq<u8>| #[trigger]
            m.contains_key(p) && m[p].entry.deleted && ancestor(w.entry.path, m[p].entry.path)
    } else {
        exists|p: Seq<u8>| #[trigger]
            m.contains_key(p) && m[p].makes_dir() && ancestor(m[p].entry.path, w.entry.path)
    }
}

/// A want-list and what it asks for.
pub struct Dispatched {
    pub list: WantListView,
    pub steps: Seq<WantStepView>,
}

impl WantListView {
    /// The paths in order.
    pub open spec fn paths(self) -> Seq<Seq<u8>> {
        in_order(self.wants.dom())
    }

    /// The want at a path.
    pub open spec fn get(self, path: Seq<u8>) -> Option<WantView> {
        if self.wants.contains_key(path) {
            Some(self.wants[path])
        } else {
            None
        }
    }

    /// What always holds of a want-list: wants stand under their paths.
    pub open spec fn well_formed(self) -> bool {
        &&& self.wants.dom().finite()
        &&& forall|p: Seq<u8>| #[trigger]
            self.wants.contains_key(p) ==> self.wants[p].entry.path == p
    }

    /// How many fetches run.
    pub open spec fn fetching(self) -> nat {
        fetching_among(self.wants, self.paths())
    }

    /// How many fetches from a node run.
    pub open spec fn fetching_from(self, node: NodeId) -> nat {
        fetching_from_among(self.wants, self.paths(), node)
    }

    /// The list with a want at a path.
    pub open spec fn put(self, path: Seq<u8>, w: WantView) -> WantListView {
        WantListView { wants: self.wants.insert(path, w), changed: noted(self.changed, path) }
    }

    /// The list after an item arrived: a want for the same version gains the source, a version
    /// that dominates replaces the want, anything else is refused.
    pub open spec fn inserted(
        self,
        item: ItemView,
        received: EntryView,
        batch: BatchId,
        source: NodeId,
        seq_high: u64,
    ) -> WantListView {
        let path = item.entry.path;
        if self.wants.contains_key(path) && self.wants[path].entry.version == item.entry.version {
            self.put(path, self.wants[path].with_source(source))
        } else if self.refuses(item) {
            self
        } else {
            self.put(path, WantView::of_item(item, received, batch, source, seq_high))
        }
    }

    /// Whether an item is neither the version wanted nor one that dominates it.
    pub open spec fn refuses(self, item: ItemView) -> bool {
        let path = item.entry.path;
        &&& self.wants.contains_key(path)
        &&& self.wants[path].entry.version != item.entry.version
        &&& relation(item.entry.version, self.wants[path].entry.version) != Relation::Dominates
    }

    /// The list after a member announced a version.
    pub open spec fn announced(self, path: Seq<u8>, version: Vector, by: NodeId) -> WantListView {
        if self.wants.contains_key(path) && self.wants[path].entry.version == version && !(
        self.wants[path].sources.contains(by) && !self.wants[path].answered.contains(by)) {
            self.put(path, self.wants[path].with_source(by))
        } else {
            self
        }
    }

    /// The list with a want as it is after a restart: no operation of the host goes on, and no
    /// fetched content is at hand.
    pub open spec fn restored(self, w: WantView) -> WantListView {
        self.put(w.entry.path, WantView { state: w.state.settled(), fetched: false, ..w })
    }

    /// The list with the wants at some paths as they are after a restart.
    pub open spec fn restarted_among(self, ks: Seq<Seq<u8>>) -> WantListView
        decreases ks.len(),
    {
        if ks.len() == 0 {
            self
        } else {
            let s = self.restarted_among(ks.drop_last());
            let w = s.wants[ks.last()];
            WantListView { wants: s.wants.remove(ks.last()), ..s }.restored(w)
        }
    }

    /// The list without the want at a path.
    pub open spec fn removed(self, path: Seq<u8>) -> WantListView {
        if self.wants.contains_key(path) {
            WantListView {
                wants: self.wants.remove(path),
                changed: noted(self.changed, path),
            }
        } else {
            self
        }
    }

    /// The list with the want at a path in a state.
    pub open spec fn with_state(self, path: Seq<u8>, state: WantState) -> WantListView {
        if self.wants.contains_key(path) && self.wants[path].state != state {
            self.put(path, WantView { state, ..self.wants[path] })
        } else {
            self
        }
    }

    /// The list with the wants at some paths in a state.
    pub open spec fn with_states(self, ps: Seq<Seq<u8>>, state: WantState) -> WantListView
        decreases ps.len(),
    {
        if ps.len() == 0 {
            self
        } else {
            self.with_states(ps.drop_last(), state).with_state(ps.last(), state)
        }
    }

    /// Whether the want at a path is of a version.
    pub open spec fn wants_version(self, path: Seq<u8>, version: Vector) -> bool {
        self.wants.contains_key(path) && self.wants[path].entry.version == version
    }

    /// The list after the host's report on a fetch.
    pub open spec fn reported(
        self,
        path: Seq<u8>,
        version: Vector,
        outcome: FetchReport,
    ) -> WantListView {
        if self.wants_version(path, version) {
            self.put(path, self.wants[path].reported(outcome))
        } else {
            self
        }
    }

    /// The list after bytes arrived for a fetch.
    pub open spec fn progressed(
        self,
        now: Timestamp,
        path: Seq<u8>,
        version: Vector,
    ) -> WantListView {
        if self.wants_version(path, version) && self.wants[path].state is Fetching {
            self.put(
                path,
                WantView {
                    state: WantState::Fetching {
                        from: self.wants[path].state->Fetching_from,
                        deadline: now.plus(FETCH_STALL_NANOS as int),
                    },
                    ..self.wants[path]
                },
            )
        } else {
            self
        }
    }

    /// The list once wants without an allowed source say so.
    pub open spec fn reselected(
        self,
        from: Wants,
        ks: Seq<Seq<u8>>,
        rules: Rules,
        peers: Map<NodeId, Tier>,
    ) -> WantListView
        decreases ks.len(),
    {
        if ks.len() == 0 {
            self
        } else {
            let s = self.reselected(from, ks.drop_last(), rules, peers);
            if seeks(from[ks.last()]) {
                match selected(from[ks.last()], rules, peers) {
                    SelectionView::Sources(_) => s,
                    SelectionView::NoSource => s.with_state(ks.last(), WantState::NoSource),
                    SelectionView::Deferred(need) => s.with_state(
                        ks.last(),
                        WantState::Deferred { need },
                    ),
                }
            } else {
                s
            }
        }
    }

    /// The first of some sources with a free slot.
    pub open spec fn free_source(self, sources: Seq<(Tier, NodeId)>, rules: Rules) -> Option<NodeId>
        decreases sources.len(),
    {
        if sources.len() == 0 {
            None
        } else {
            match self.free_source(sources.drop_last(), rules) {
                Some(n) => Some(n),
                None => if self.fetching_from(sources.last().1) < rules.max_fetches_per_peer {
                    Some(sources.last().1)
                } else {
                    None
                },
            }
        }
    }
}

/// Wants that can be fetched, by their best source and their path.
pub open spec fn fetch_keys(m: Wants, rules: Rules, peers: Map<NodeId, Tier>) -> Set<
    ((Tier, NodeId), Seq<u8>),
> {
    Set::new(
        |k: ((Tier, NodeId), Seq<u8>)|
            m.contains_key(k.1) && seeks(m[k.1]) && selected(m[k.1], rules, peers) is Sources
                && selected(m[k.1], rules, peers)->Sources_0[0] == k.0,
    )
}

impl Dispatched {
    /// After one want was given a source, if a slot is free.
    pub open spec fn fetch(
        self,
        from: Wants,
        path: Seq<u8>,
        now: Timestamp,
        rules: Rules,
        peers: Map<NodeId, Tier>,
    ) -> Dispatched {
        let sources = selected(from[path], rules, peers)->Sources_0;
        if self.list.fetching() >= rules.max_fetches_per_folder {
            Dispatched { list: self.list.with_state(path, WantState::Wanted), ..self }
        } else {
            match self.list.free_source(sources, rules) {
                None => Dispatched { list: self.list.with_state(path, WantState::Wanted), ..self },
                Some(node) => Dispatched {
                    list: self.list.with_state(
                        path,
                        WantState::Fetching {
                            from: node,
                            deadline: now.plus(FETCH_STALL_NANOS as int),
                        },
                    ),
                    steps: self.steps.push(
                        WantStepView::Fetch {
                            path,
                            version: from[path].entry.version,
                            from: node,
                        },
                    ),
                },
            }
        }
    }

    /// After some wants were given sources, in turn.
    pub open spec fn fetches(
        self,
        from: Wants,
        ks: Seq<((Tier, NodeId), Seq<u8>)>,
        now: Timestamp,
        rules: Rules,
        peers: Map<NodeId, Tier>,
    ) -> Dispatched
        decreases ks.len(),
    {
        if ks.len() == 0 {
            self
        } else {
            self.fetches(from, ks.drop_last(), now, rules, peers).fetch(
                from,
                ks.last().1,
                now,
                rules,
                peers,
            )
        }
    }

    /// After one want was committed, unless it must wait.
    pub open spec fn commit(self, path: Seq<u8>, now: Timestamp) -> Dispatched {
        match self.list.get(path) {
            None => self,
            Some(w) => if gated(self.list.wants, w) {
                Dispatched { list: self.list.with_state(path, WantState::Blocked), ..self }
            } else if w.mode == ApplyMode::IndexOnly {
                Dispatched {
                    list: self.list.removed(path),
                    steps: self.steps.push(WantStepView::Adopt(w)),
                }
            } else {
                Dispatched {
                    list: self.list.with_state(
                        path,
                        WantState::Committing {
                            deadline: now.plus(COMMIT_DEADLINE_NANOS as int),
                        },
                    ),
                    steps: self.steps.push(WantStepView::Commit(w)),
                }
            },
        }
    }

    /// After some wants were committed, in turn.
    pub open spec fn commits(self, ps: Seq<Seq<u8>>, now: Timestamp) -> Dispatched
        decreases ps.len(),
    {
        if ps.len() == 0 {
            self
        } else {
            self.commits(ps.drop_last(), now).commit(ps.last(), now)
        }
    }
}

impl WantListView {
    /// The list with sources given out, and the fetches to make.
    pub open spec fn fetch_phase(
        self,
        now: Timestamp,
        rules: Rules,
        peers: Map<NodeId, Tier>,
    ) -> Dispatched {
        Dispatched {
            list: self.reselected(self.wants, self.paths(), rules, peers),
            steps: Seq::empty(),
        }.fetches(
            self.wants,
            in_order(fetch_keys(self.wants, rules, peers)),
            now,
            rules,
            peers,
        )
    }

    /// The paths to commit: creations with parents first, then deletions with children first.
    pub open spec fn commit_order(self) -> Seq<Seq<u8>> {
        creates_among(self.wants, self.paths()) + deletes_among(
            self.wants,
            self.paths(),
        ).reverse()
    }

    /// What is to be done next for every want.
    pub open spec fn dispatched(
        self,
        now: Timestamp,
        rules: Rules,
        peers: Map<NodeId, Tier>,
    ) -> Dispatched {
        let d = self.fetch_phase(now, rules, peers);
        d.commits(d.list.commit_order(), now)
    }
}

// ---- counting fetches -------------------------------------------------------

/// Wants that agree in everything but their states.
pub open spec fn same_but_state(a: Wants, b: Wants) -> bool {
    &&& a.dom() == b.dom()
    &&& forall|p: Seq<u8>| #[trigger]
        a.contains_key(p) ==> b[p] == (WantView { state: b[p].state, ..a[p] })
}

/// Changing one want changes the counts by that want alone.
proof fn lemma_fetching_update(m: Wants, ks: Seq<Seq<u8>>, path: Seq<u8>, w: WantView, node: NodeId)
    requires
        ks.no_duplicates(),
    ensures
        ks.contains(path) ==> fetching_among(m.insert(path, w), ks) == fetching_among(m, ks) + (
        if is_fetching(w) {
            1int
        } else {
            0int
        }) - (if is_fetching(m[path]) {
            1int
        } else {
            0int
        }),
        ks.contains(path) ==> fetching_from_among(m.insert(path, w), ks, node)
            == fetching_from_among(m, ks, node) + (if is_fetching_from(w, node) {
            1int
        } else {
            0int
        }) - (if is_fetching_from(m[path], node) {
            1int
        } else {
            0int
        }),
        !ks.contains(path) ==> fetching_among(m.insert(path, w), ks) == fetching_among(m, ks),
        !ks.contains(path) ==> fetching_from_among(m.insert(path, w), ks, node)
            == fetching_from_among(m, ks, node),
    decreases ks.len(),
{
    if ks.len() > 0 {
        let t = ks.drop_last();
        lemma_fetching_update(m, t, path, w, node);
        lemma_take_contains(ks, ks.len() - 1, path);
        assert(ks.take(ks.len() - 1) =~= t);
        assert(ks.take(ks.len() as int) =~= ks);
    }
}

/// Putting a want in place of another changes the counts by that want alone.
pub proof fn lemma_put_counts(s: WantListView, path: Seq<u8>, w: WantView, node: NodeId)
    requires
        s.wants.dom().finite(),
        s.wants.contains_key(path),
    ensures
        s.put(path, w).paths() == s.paths(),
        s.put(path, w).fetching() == s.fetching() + (if is_fetching(w) {
            1int
        } else {
            0int
        }) - (if is_fetching(s.wants[path]) {
            1int
        } else {
            0int
        }),
        s.put(path, w).fetching_from(node) == s.fetching_from(node) + (if is_fetching_from(
            w,
            node,
        ) {
            1int
        } else {
            0int
        }) - (if is_fetching_from(s.wants[path], node) {
            1int
        } else {
            0int
        }),
{
    lemma_order_facts(s.wants.dom());
    assert(s.put(path, w).wants.dom() =~= s.wants.dom());
    lemma_fetching_update(s.wants, s.paths(), path, w, node);
}

proof fn lemma_fetching_bound(m: Wants, ks: Seq<Seq<u8>>, node: NodeId)
    ensures
        fetching_among(m, ks) <= ks.len(),
        fetching_from_among(m, ks, node) <= fetching_among(m, ks),
    decreases ks.len(),
{
    if ks.len() > 0 {
        lemma_fetching_bound(m, ks.drop_last(), node);
    }
}

impl WantListView {
    /// The list with the wants at some paths in states of their own.
    pub open spec fn with_each(self, list: Seq<(Seq<u8>, WantState)>) -> WantListView
        decreases list.len(),
    {
        if list.len() == 0 {
            self
        } else {
            self.with_each(list.drop_last()).with_state(list.last().0, list.last().1)
        }
    }
}

// ---- the list ---------------------------------------------------------------

/// The per-folder want-list.
#[derive(Clone, Debug, PartialEq, Eq)]
pub struct WantList {
    wants: OrdMap<RelPath, Want>,
    changed: Vec<RelPath>,
}

impl View for WantList {
    type V = WantListView;

    closed spec fn view(&self) -> WantListView {
        WantListView { wants: self.wants@, changed: self.changed.deep_view() }
    }
}

impl DeepView for WantList {
    type V = WantListView;

    open spec fn deep_view(&self) -> WantListView {
        self.view()
    }
}

impl Default for WantList {
    fn default() -> (r: WantList)
        ensures
            r@ == (WantListView { wants: Map::empty(), changed: Seq::empty() }),
    {
        let r = WantList { wants: OrdMap::new(), changed: Vec::new() };
        assert(r@.changed =~= Seq::empty());
        r
    }
}

/// The sources that a want may be fetched from.
enum Selection {
    Sources(Vec<(Tier, NodeId)>),
    NoSource,
    Deferred(Tier),
}

impl View for Selection {
    type V = SelectionView;

    closed spec fn view(&self) -> SelectionView {
        match self {
            Selection::Sources(v) => SelectionView::Sources(v.deep_view()),
            Selection::NoSource => SelectionView::NoSource,
            Selection::Deferred(t) => SelectionView::Deferred(*t),
        }
    }
}

impl WantList {
    /// A list of stored wants, by their paths, with no change noted.
    pub fn from_wants(wants: OrdMap<RelPath, Want>) -> (r: WantList)
        ensures
            r@ == (WantListView { wants: wants@, changed: Seq::empty() }),
    {
        let changed: Vec<RelPath> = Vec::new();
        assert(changed.deep_view() =~= Seq::empty());
        WantList { wants, changed }
    }

    /// The wants by their paths, to store them.
    pub fn into_wants(self) -> (r: OrdMap<RelPath, Want>)
        ensures
            r@ == self@.wants,
    {
        self.wants
    }

    /// True if nothing is wanted.
    pub fn is_empty(&self) -> (r: bool)
        ensures
            r == (self@.wants == Map::<Seq<u8>, WantView>::empty()),
            self@.wants.dom().finite(),
    {
        self.wants.is_empty()
    }

    /// Number of wants.
    pub fn len(&self) -> (r: usize)
        ensures
            r == self@.wants.dom().len(),
            r == self@.paths().len(),
            self@.wants.dom().finite(),
    {
        self.wants.len()
    }

    /// The want at a path.
    pub fn get(&self, path: &RelPath) -> (r: Option<&Want>)
        ensures
            r.deep_view() == self@.get(path@),
    {
        self.wants.get(path)
    }

    /// The want at a position of the path order.
    pub fn at(&self, i: usize) -> (r: &Want)
        requires
            i < self@.wants.dom().len(),
        ensures
            self@.wants.contains_key(self@.paths()[i as int]),
            r@ == self@.wants[self@.paths()[i as int]],
    {
        self.wants.value_at(i)
    }

    /// Every want in path order.
    pub fn iter(&self) -> (r: Vec<&Want>)
        ensures
            r.deep_view() == Seq::new(
                self@.paths().len(),
                |i: int| self@.wants[self@.paths()[i]],
            ),
    {
        let mut out: Vec<&Want> = Vec::new();
        let n: usize = self.wants.len();
        let mut i: usize = 0;
        while i < n
            invariant
                i <= n,
                n == self.wants@.dom().len(),
                n == self@.paths().len(),
                self@.wants == self.wants@,
                out.len() == i,
                forall|j: int|
                    0 <= j < i ==> (#[trigger] out@[j]).deep_view() == self@.wants[self@.paths()[j]],
            decreases n - i,
        {
            out.push(self.wants.value_at(i));
            i = i + 1;
        }
        assert(out.deep_view() =~= Seq::new(
            self@.paths().len(),
            |i: int| self@.wants[self@.paths()[i]],
        ));
        out
    }

    /// True if the path has a want in a short-lived state.
    pub fn in_flight(&self, path: &RelPath) -> (r: bool)
        ensures
            r == (self@.wants.contains_key(path@) && self@.wants[path@].state.short_lived()),
    {
        match self.wants.get(path) {
            Some(w) => w.in_flight(),
            None => false,
        }
    }

    /// True if the path has a want made by a revert.
    pub fn restoring(&self, path: &RelPath) -> (r: bool)
        ensures
            r == (self@.wants.contains_key(path@) && self@.wants[path@].restoring),
    {
        match self.wants.get(path) {
            Some(w) => w.restoring,
            None => false,
        }
    }

    /// Number of fetches in progress.
    pub fn fetching(&self) -> (r: usize)
        ensures
            r == self@.fetching(),
    {
        let n: usize = self.wants.len();
        let ghost ks = self@.paths();
        let mut count: usize = 0;
        let mut i: usize = 0;
        assert(ks.take(0) =~= Seq::empty());
        while i < n
            invariant
                i <= n,
                count <= i,
                n == self.wants@.dom().len(),
                n == ks.len(),
                self@.wants == self.wants@,
                ks == self@.paths(),
                count == fetching_among(self@.wants, ks.take(i as int)),
            decreases n - i,
        {
            assert(ks.take(i + 1).drop_last() =~= ks.take(i as int));
            let w = self.wants.value_at(i);
            if matches!(w.state, WantState::Fetching { .. }) {
                count = count + 1;
            }
            i = i + 1;
        }
        assert(ks.take(i as int) =~= ks);
        count
    }

    fn note(&mut self, path: &RelPath)
        ensures
            final(self)@ == (WantListView {
                changed: noted(old(self)@.changed, path@),
                ..old(self)@
            }),
    {
        let n: usize = self.changed.len();
        let repeated = n > 0 && self.changed[n - 1].same(path);
        if !repeated {
            let ghost before = self.changed.deep_view();
            self.changed.push(path.dup());
            assert(self.changed.deep_view() =~= before.push(path@));
        }
    }

    /// Puts a want at a path.
    fn put(&mut self, path: &RelPath, want: Want)
        ensures
            final(self)@ == old(self)@.put(path@, want@),
    {
        self.wants.insert(path.dup(), want);
        self.note(path);
    }

    /// Paths whose want changed since the last call, with the want as it stands, in the order of
    /// first change.
    pub fn drain_changes(&mut self) -> (r: Vec<(RelPath, Option<Want>)>)
        ensures
            final(self)@ == (WantListView { changed: Seq::empty(), ..old(self)@ }),
            r.deep_view() == Seq::new(
                distinct(old(self)@.changed).len(),
                |i: int|
                    (
                        distinct(old(self)@.changed)[i],
                        old(self)@.get(distinct(old(self)@.changed)[i]),
                    ),
            ),
    {
        let mut changed: Vec<RelPath> = Vec::new();
        std::mem::swap(&mut changed, &mut self.changed);
        assert(self@.changed =~= Seq::empty());
        let ghost before = old(self)@;
        let ghost cs = changed.deep_view();
        assert(cs == before.changed);
        let mut seen: OrdSet<RelPath> = OrdSet::new();
        let mut out: Vec<(RelPath, Option<Want>)> = Vec::new();
        let mut i: usize = 0;
        assert(cs.take(0) =~= Seq::empty());
        while i < changed.len()
            invariant
                i <= changed.len(),
                cs == changed.deep_view(),
                self@ == (WantListView { changed: Seq::empty(), ..before }),
                forall|p: Seq<u8>| #[trigger] seen@.contains(p) <==> cs.take(i as int).contains(p),
                out.len() == distinct(cs.take(i as int)).len(),
                forall|j: int|
                    0 <= j < out.len() ==> (#[trigger] out@[j]).deep_view() == (
                        distinct(cs.take(i as int))[j],
                        before.get(distinct(cs.take(i as int))[j]),
                    ),
            decreases changed.len() - i,
        {
            let path = &changed[i];
            assert(cs[i as int] == path@);
            let ghost was = seen@;
            proof {
                lemma_take_contains(cs, i as int, path@);
            }
            if seen.insert(path.dup()) {
                let want: Option<Want> = match self.wants.get(path) {
                    Some(w) => Some(w.dup()),
                    None => None,
                };
                out.push((path.dup(), want));
            }
            proof {
                assert forall|p: Seq<u8>| #[trigger]
                    seen@.contains(p) <==> cs.take(i + 1).contains(p) by {
                    lemma_take_contains(cs, i as int, p);
                    assert(was.contains(p) <==> cs.take(i as int).contains(p));
                }
            }
            i = i + 1;
        }
        assert(cs.take(i as int) =~= cs);
        assert(out.deep_view() =~= Seq::new(
            distinct(cs).len(),
            |i: int| (distinct(cs)[i], before.get(distinct(cs)[i])),
        ));
        out
    }

    /// An accepted item arrives. A want for the same version gains the source; a dominating
    /// version replaces the want; anything else is refused and handed back.
    pub fn insert(
        &mut self,
        item: ApplyItem,
        batch: BatchId,
        source: NodeId,
        seq_high: u64,
    ) -> (r: Option<ApplyItem>)
        ensures
            final(self)@ == old(self)@.inserted(item@, item@.entry, batch, source, seq_high),
            r.deep_view() == if old(self)@.refuses(item@) {
                Some(item@)
            } else {
                None
            },
    {
        let received = item.incoming().dup();
        self.insert_received(item, received, batch, source, seq_high)
    }

    /// As [`WantList::insert`], for an item that came of another entry than its own.
    pub fn insert_received(
        &mut self,
        item: ApplyItem,
        received: Entry,
        batch: BatchId,
        source: NodeId,
        seq_high: u64,
    ) -> (r: Option<ApplyItem>)
        ensures
            final(self)@ == old(self)@.inserted(item@, received@, batch, source, seq_high),
            r.deep_view() == if old(self)@.refuses(item@) {
                Some(item@)
            } else {
                None
            },
    {
        let path = item.path().dup();
        if let Some(existing) = self.wants.get(&path) {
            if item.incoming().version.same(existing.version()) {
                let mut want = existing.dup();
                want.sources.insert(source);
                want.answered.remove(&source);
                self.put(&path, want);
                return None;
            }
            if !item.incoming().version.dominates(existing.version()) {
                return Some(item);
            }
        }
        self.put(&path, Want::from_item(item, received, batch, source, seq_high));
        None
    }

    /// A batch carried a version of a path: if that is exactly what a want is after, the batch's
    /// source has it.
    pub fn note_announced(&mut self, path: &RelPath, version: &Version, by: NodeId)
        ensures
            final(self)@ == old(self)@.announced(path@, version@, by),
    {
        if let Some(existing) = self.wants.get(path) {
            if existing.version().same(version) && !(existing.sources.contains(&by)
                && !existing.answered.contains(&by)) {
                let mut want = existing.dup();
                want.sources.insert(by);
                want.answered.remove(&by);
                self.put(path, want);
            }
        }
    }

    /// A want made by a revert: fetch the restored entry again.
    pub fn insert_restoring(&mut self, want: Want)
        ensures
            final(self)@ == old(self)@.put(want@.entry.path, want@),
    {
        let path = want.path().dup();
        self.put(&path, want);
    }

    /// A stored want comes back after a restart. Transient states become `Wanted`, and content
    /// that was fetched is fetched again.
    pub fn restore(&mut self, want: Want)
        ensures
            final(self)@ == old(self)@.restored(want@),
    {
        let mut w = want;
        if matches!(
            w.state,
            WantState::Fetching { .. } | WantState::Committing { .. } | WantState::Blocked
        ) {
            w.state = WantState::Wanted;
        }
        w.fetched = false;
        let path = w.path().dup();
        self.put(&path, w);
    }

    /// The process restarted: every transient state is `Wanted` again.
    pub fn restarted(&mut self)
        ensures
            final(self)@ == old(self)@.restarted_among(old(self)@.paths()),
    {
        let paths = self.path_list();
        let ghost ks = old(self)@.paths();
        let ghost start = old(self)@;
        let mut i: usize = 0;
        assert(ks.take(0) =~= Seq::empty());
        proof {
            lemma_order_facts(start.wants.dom());
        }
        while i < paths.len()
            invariant
                i <= paths.len(),
                ks == start.paths(),
                paths.deep_view() == ks,
                ks.no_duplicates(),
                self@ == start.restarted_among(ks.take(i as int)),
                forall|j: int| i <= j < ks.len() ==> self@.wants.contains_key(#[trigger] ks[j]),
            decreases paths.len() - i,
        {
            assert(ks[i as int] == paths@[i as int]@);
            proof {
                lemma_take_contains(ks, i as int, ks[i as int]);
                assert forall|j: int| i + 1 <= j < ks.len() implies self@.wants.remove(
                    ks[i as int],
                ).contains_key(#[trigger] ks[j]) by {
                    assert(ks[j] != ks[i as int]);
                }
            }
            if let Some(w) = self.wants.remove(&paths[i]) {
                self.restore(w);
            }
            i = i + 1;
        }
        assert(ks.take(i as int) =~= ks);
    }

    /// The paths in order.
    fn path_list(&self) -> (r: Vec<RelPath>)
        ensures
            r.deep_view() == self@.paths(),
            self@.wants.dom().finite(),
    {
        let mut out: Vec<RelPath> = Vec::new();
        let n: usize = self.wants.len();
        let mut i: usize = 0;
        while i < n
            invariant
                i <= n,
                n == self.wants@.dom().len(),
                n == self@.paths().len(),
                self@.wants == self.wants@,
                out.len() == i,
                forall|j: int| 0 <= j < i ==> (#[trigger] out@[j]).deep_view() == self@.paths()[j],
            decreases n - i,
        {
            out.push(self.wants.key_at(i).dup());
            i = i + 1;
        }
        assert(out.deep_view() =~= self@.paths());
        out
    }

    /// Drops the want at `path`.
    pub fn remove(&mut self, path: &RelPath) -> (r: Option<Want>)
        ensures
            final(self)@ == old(self)@.removed(path@),
            r.deep_view() == old(self)@.get(path@),
    {
        let want = self.wants.remove(path);
        if want.is_some() {
            self.note(path);
        } else {
            assert(self@.wants =~= old(self)@.wants);
        }
        want
    }

    fn set_state(&mut self, path: &RelPath, state: WantState)
        ensures
            final(self)@ == old(self)@.with_state(path@, state),
    {
        if let Some(existing) = self.wants.get(path) {
            if existing.state != state {
                let mut want = existing.dup();
                want.state = state;
                self.put(path, want);
            }
        }
    }

    /// Sets one state at some paths.
    fn set_states(&mut self, paths: &Vec<RelPath>, state: WantState)
        ensures
            final(self)@ == old(self)@.with_states(paths.deep_view(), state),
    {
        let ghost ps = paths.deep_view();
        let ghost start = self@;
        let mut i: usize = 0;
        assert(ps.take(0) =~= Seq::empty());
        while i < paths.len()
            invariant
                i <= paths.len(),
                ps == paths.deep_view(),
                self@ == start.with_states(ps.take(i as int), state),
            decreases paths.len() - i,
        {
            assert(ps.take(i + 1).drop_last() =~= ps.take(i as int));
            self.set_state(&paths[i], state);
            i = i + 1;
        }
        assert(ps.take(i as int) =~= ps);
    }

    /// The host reports on a fetch. Returns the want, if the report matched one.
    pub fn fetched(&mut self, path: &RelPath, version: &Version, outcome: FetchReport) -> (r: Option<
        Want,
    >)
        ensures
            final(self)@ == old(self)@.reported(path@, version@, outcome),
            r.deep_view() == if old(self)@.wants_version(path@, version@) {
                Some(old(self)@.wants[path@].reported(outcome))
            } else {
                None
            },
    {
        let mut want = match self.wants.get(path) {
            Some(w) => {
                if !w.version().same(version) {
                    return None;
                }
                w.dup()
            },
            None => {
                return None;
            },
        };
        match outcome {
            FetchReport::Done => {
                want.fetched = true;
                want.state = WantState::Wanted;
            },
            FetchReport::NotAvailable => {
                if let WantState::Fetching { from, .. } = want.state {
                    want.sources.remove(&from);
                    want.answered.insert(from);
                }
                want.state = WantState::Wanted;
            },
            FetchReport::HashMismatch => {
                if let WantState::Fetching { from, .. } = want.state {
                    want.excluded.insert(from);
                }
                want.mismatches = want.mismatches.saturating_add(1);
                want.state = if want.mismatches >= 2 {
                    WantState::GaveUp
                } else {
                    WantState::Wanted
                };
            },
        }
        self.put(path, want.dup());
        Some(want)
    }

    /// The host reported bytes arriving: the stall deadline moves out.
    pub fn progress(&mut self, now: Timestamp, path: &RelPath, version: &Version)
        ensures
            final(self)@ == old(self)@.progressed(now, path@, version@),
    {
        if let Some(existing) = self.wants.get(path) {
            if existing.version().same(version) {
                if let WantState::Fetching { from, .. } = existing.state {
                    let mut want = existing.dup();
                    want.state = WantState::Fetching {
                        from,
                        deadline: now.plus_nanos(FETCH_STALL_NANOS),
                    };
                    self.put(path, want);
                }
            }
        }
    }

    /// Deadlines that have passed return the want to `Wanted`. Returns the paths.
    pub fn expire(&mut self, now: Timestamp) -> (r: Vec<RelPath>)
        ensures
            r.deep_view() == overdue_among(old(self)@.wants, old(self)@.paths(), now),
            final(self)@ == old(self)@.with_states(
                overdue_among(old(self)@.wants, old(self)@.paths(), now),
                WantState::Wanted,
            ),
    {
        let n: usize = self.wants.len();
        let ghost ks = self@.paths();
        let mut out: Vec<RelPath> = Vec::new();
        let mut i: usize = 0;
        assert(ks.take(0) =~= Seq::empty());
        assert(out.deep_view() =~= overdue_among(self@.wants, ks.take(0), now));
        while i < n
            invariant
                i <= n,
                n == self.wants@.dom().len(),
                n == ks.len(),
                self@ == old(self)@,
                self@.wants == self.wants@,
                ks == self@.paths(),
                out.deep_view() == overdue_among(self@.wants, ks.take(i as int), now),
            decreases n - i,
        {
            let ghost before = out.deep_view();
            assert(ks.take(i + 1).drop_last() =~= ks.take(i as int));
            let path = self.wants.key_at(i);
            if let Some(deadline) = self.wants.value_at(i).state.deadline() {
                if deadline.0 <= now.0 {
                    out.push(path.dup());
                    assert(out.deep_view() =~= before.push(path@));
                }
            }
            i = i + 1;
        }
        assert(ks.take(i as int) =~= ks);
        self.set_states(&out, WantState::Wanted);
        out
    }

    /// A peer went away: fetches from it are over.
    pub fn peer_gone(&mut self, peer: NodeId)
        ensures
            final(self)@ == old(self)@.with_states(
                served_among(old(self)@.wants, old(self)@.paths(), peer),
                WantState::Wanted,
            ),
    {
        let n: usize = self.wants.len();
        let ghost ks = self@.paths();
        let mut out: Vec<RelPath> = Vec::new();
        let mut i: usize = 0;
        assert(ks.take(0) =~= Seq::empty());
        assert(out.deep_view() =~= served_among(self@.wants, ks.take(0), peer));
        while i < n
            invariant
                i <= n,
                n == self.wants@.dom().len(),
                n == ks.len(),
                self@ == old(self)@,
                self@.wants == self.wants@,
                ks == self@.paths(),
                out.deep_view() == served_among(self@.wants, ks.take(i as int), peer),
            decreases n - i,
        {
            let ghost before = out.deep_view();
            assert(ks.take(i + 1).drop_last() =~= ks.take(i as int));
            let path = self.wants.key_at(i);
            if let WantState::Fetching { from, .. } = self.wants.value_at(i).state {
                if from == peer {
                    out.push(path.dup());
                    assert(out.deep_view() =~= before.push(path@));
                }
            }
            i = i + 1;
        }
        assert(ks.take(i as int) =~= ks);
        self.set_states(&out, WantState::Wanted);
    }

    /// The earliest fetch or commit deadline.
    pub fn next_deadline(&self) -> (r: Option<Timestamp>)
        ensures
            r == deadline_among(self@.wants, self@.paths()),
    {
        let n: usize = self.wants.len();
        let ghost ks = self@.paths();
        let mut best: Option<Timestamp> = None;
        let mut i: usize = 0;
        assert(ks.take(0) =~= Seq::empty());
        while i < n
            invariant
                i <= n,
                n == self.wants@.dom().len(),
                n == ks.len(),
                self@.wants == self.wants@,
                ks == self@.paths(),
                best == deadline_among(self@.wants, ks.take(i as int)),
            decreases n - i,
        {
            assert(ks.take(i + 1).drop_last() =~= ks.take(i as int));
            if let Some(d) = self.wants.value_at(i).state.deadline() {
                best = match best {
                    Some(b) => if b.0 <= d.0 {
                        Some(b)
                    } else {
                        Some(d)
                    },
                    None => Some(d),
                };
            }
            i = i + 1;
        }
        assert(ks.take(i as int) =~= ks);
        best
    }

    /// True if committing a want must wait.
    fn gated(&self, want: &Want) -> (r: bool)
        ensures
            r == gated(self@.wants, want@),
    {
        if want.is_delete() && want.entry.kind != Kind::Dir {
            return false;
        }
        let n: usize = self.wants.len();
        let ghost ks = self@.paths();
        let mut i: usize = 0;
        proof {
            lemma_order_facts(self@.wants.dom());
        }
        while i < n
            invariant
                i <= n,
                n == self.wants@.dom().len(),
                n == ks.len(),
                self@.wants == self.wants@,
                ks == self@.paths(),
                forall|p: Seq<u8>| #[trigger] self@.wants.contains_key(p) ==> ks.contains(p),
                !(want@.entry.deleted && want@.entry.kind != Kind::Dir),
                forall|j: int|
                    0 <= j < i ==> !(if want@.entry.deleted {
                        self@.wants[#[trigger] ks[j]].entry.deleted && ancestor(
                            want@.entry.path,
                            self@.wants[ks[j]].entry.path,
                        )
                    } else {
                        self@.wants[ks[j]].makes_dir() && ancestor(
                            self@.wants[ks[j]].entry.path,
                            want@.entry.path,
                        )
                    }),
            decreases n - i,
        {
            let other = self.wants.value_at(i);
            assert(self@.wants.contains_key(ks[i as int]));
            if want.is_delete() {
                if other.is_delete() && want.path().is_ancestor_of(other.path()) {
                    return true;
                }
            } else if other.is_dir_create() && other.path().is_ancestor_of(want.path()) {
                return true;
            }
            i = i + 1;
        }
        proof {
            assert(!gated(self@.wants, want@)) by {
                if gated(self@.wants, want@) {
                    let p = if want@.entry.deleted {
                        choose|p: Seq<u8>| #[trigger]
                            self@.wants.contains_key(p) && self@.wants[p].entry.deleted && ancestor(
                                want@.entry.path,
                                self@.wants[p].entry.path,
                            )
                    } else {
                        choose|p: Seq<u8>| #[trigger]
                            self@.wants.contains_key(p) && self@.wants[p].makes_dir() && ancestor(
                                self@.wants[p].entry.path,
                                want@.entry.path,
                            )
                    };
                    assert(ks.contains(p));
                    let j = choose|j: int| 0 <= j < ks.len() && ks[j] == p;
                    assert(self@.wants[ks[j]] == self@.wants[p]);
                }
            }
        }
        false
    }

    /// The sources that a want may be fetched from, best first.
    fn select(want: &Want, rules: &Rules, peers: &OrdMap<NodeId, Tier>) -> (r: Selection)
        ensures
            r@ == selected(want@, *rules, peers@),
            r@ is Sources ==> r@->Sources_0.len() > 0,
    {
        let n: usize = want.sources.len();
        let ghost ns = in_order(want@.sources);
        let ghost cands = candidates(want@, peers@);
        let ghost allow = allowed(want@, *rules, peers@);
        let mut all: OrdSet<(Tier, NodeId)> = OrdSet::new();
        let mut fit: OrdSet<(Tier, NodeId)> = OrdSet::new();
        let size: u64 = want.entry.size;
        let mut i: usize = 0;
        proof {
            lemma_order_facts(want@.sources);
        }
        while i < n
            invariant
                i <= n,
                n == want@.sources.len(),
                n == ns.len(),
                size == want@.entry.size,
                ns == in_order(want@.sources),
                cands == candidates(want@, peers@),
                allow == allowed(want@, *rules, peers@),
                forall|k: (Tier, NodeId)| #[trigger]
                    all@.contains(k) <==> cands.contains(k) && ns.take(i as int).contains(k.1),
                forall|k: (Tier, NodeId)| #[trigger]
                    fit@.contains(k) <==> allow.contains(k) && ns.take(i as int).contains(k.1),
            decreases n - i,
        {
            let node: NodeId = *want.sources.at(i);
            let ghost was = all@;
            let ghost was_fit = fit@;
            if !want.excluded.contains(&node) {
                if let Some(tier) = peers.get(&node) {
                    all.insert((*tier, node));
                    if tier.allows(rules, size) {
                        fit.insert((*tier, node));
                    }
                }
            }
            proof {
                assert forall|k: (Tier, NodeId)| #[trigger]
                    all@.contains(k) <==> cands.contains(k) && ns.take(i + 1).contains(k.1) by {
                    lemma_take_contains(ns, i as int, k.1);
                    assert(was.contains(k) <==> cands.contains(k) && ns.take(i as int).contains(
                        k.1,
                    ));
                }
                assert forall|k: (Tier, NodeId)| #[trigger]
                    fit@.contains(k) <==> allow.contains(k) && ns.take(i + 1).contains(k.1) by {
                    lemma_take_contains(ns, i as int, k.1);
                    assert(was_fit.contains(k) <==> allow.contains(k) && ns.take(i as int).contains(
                        k.1,
                    ));
                }
            }
            i = i + 1;
        }
        proof {
            assert(ns.take(i as int) =~= ns);
            assert(all@ =~= cands);
            assert(fit@ =~= allow);
        }
        if all.len() == 0 {
            return Selection::NoSource;
        }
        if fit.len() == 0 {
            let need = if Tier::Relay.allows(rules, size) {
                Tier::Relay
            } else if Tier::Direct.allows(rules, size) {
                Tier::Direct
            } else {
                Tier::Lan
            };
            return Selection::Deferred(need);
        }
        let list = fit.to_vec();
        proof {
            assert forall|j: int| 0 <= j < list.len() implies (#[trigger] list@[j]).deep_view()
                == in_order(allow)[j] by {
                assert(list@[j].key() == in_order(allow)[j]);
            }
            assert(list.deep_view() =~= in_order(allow));
        }
        Selection::Sources(list)
    }
}

/// A want that can be fetched: its best source and its path.
type FetchKey = ((Tier, NodeId), RelPath);

/// The count of a node.
spec fn count_of(counts: Map<NodeId, u64>, node: NodeId) -> nat {
    if counts.contains_key(node) {
        counts[node] as nat
    } else {
        0
    }
}

/// Reselecting changes states only, and of wants without an allowed source only.
pub proof fn lemma_reselected(
    s: WantListView,
    ks: Seq<Seq<u8>>,
    rules: Rules,
    peers: Map<NodeId, Tier>,
)
    ensures
        ({
            let r = s.reselected(s.wants, ks, rules, peers);
            &&& same_but_state(s.wants, r.wants)
            &&& forall|p: Seq<u8>| #[trigger]
                s.wants.contains_key(p) && selected(s.wants[p], rules, peers) is Sources
                    ==> r.wants[p] == s.wants[p]
        }),
    decreases ks.len(),
{
    if ks.len() > 0 {
        lemma_reselected(s, ks.drop_last(), rules, peers);
        let r = s.reselected(s.wants, ks.drop_last(), rules, peers);
        let n = s.reselected(s.wants, ks, rules, peers);
        assert(n.wants.dom() =~= s.wants.dom());
    } else {
        assert(s.wants.dom() =~= s.wants.dom());
    }
}

impl WantList {
    /// The wants that can be fetched with their allowed sources, and the states of those that
    /// cannot.
    fn plan(&self, rules: &Rules, peers: &OrdMap<NodeId, Tier>) -> (r: (
        OrdMap<FetchKey, Vec<(Tier, NodeId)>>,
        Vec<(RelPath, WantState)>,
    ))
        ensures
            r.0@.dom() == fetch_keys(self@.wants, *rules, peers@),
            forall|k: ((Tier, NodeId), Seq<u8>)| #[trigger]
                r.0@.contains_key(k) ==> r.0@[k] == selected(
                    self@.wants[k.1],
                    *rules,
                    peers@,
                )->Sources_0,
            self@.with_each(r.1.deep_view()) == self@.reselected(
                self@.wants,
                self@.paths(),
                *rules,
                peers@,
            ),
    {
        let mut fetchable: OrdMap<FetchKey, Vec<(Tier, NodeId)>> = OrdMap::new();
        let mut states: Vec<(RelPath, WantState)> = Vec::new();
        let n: usize = self.wants.len();
        let ghost ks = self@.paths();
        let ghost fk = fetch_keys(self@.wants, *rules, peers@);
        let mut i: usize = 0;
        proof {
            lemma_order_facts(self@.wants.dom());
            assert(ks.take(0) =~= Seq::empty());
            assert(states.deep_view() =~= Seq::empty());
        }
        while i < n
            invariant
                i <= n,
                n == self.wants@.dom().len(),
                n == ks.len(),
                self@.wants == self.wants@,
                ks == self@.paths(),
                ks.no_duplicates(),
                fk == fetch_keys(self@.wants, *rules, peers@),
                forall|k: ((Tier, NodeId), Seq<u8>)| #[trigger]
                    fetchable@.contains_key(k) <==> fk.contains(k) && ks.take(i as int).contains(
                        k.1,
                    ),
                forall|k: ((Tier, NodeId), Seq<u8>)| #[trigger]
                    fetchable@.contains_key(k) ==> fetchable@[k] == selected(
                        self@.wants[k.1],
                        *rules,
                        peers@,
                    )->Sources_0,
                self@.with_each(states.deep_view()) == self@.reselected(
                    self@.wants,
                    ks.take(i as int),
                    *rules,
                    peers@,
                ),
            decreases n - i,
        {
            let path = self.wants.key_at(i);
            let want = self.wants.value_at(i);
            let ghost was = fetchable@;
            let ghost before = states.deep_view();
            proof {
                lemma_take_contains(ks, i as int, path@);
                assert(ks.take(i + 1).last() == path@);
            }
            let open = matches!(
                want.state,
                WantState::Wanted | WantState::Deferred { .. } | WantState::NoSource
            );
            if want.needs_fetch() && open {
                match WantList::select(want, rules, peers) {
                    Selection::Sources(list) => {
                        let best = list[0];
                        assert(best.deep_view() == list.deep_view()[0]);
                        fetchable.insert((best, path.dup()), list);
                    },
                    Selection::NoSource => {
                        states.push((path.dup(), WantState::NoSource));
                        assert(states.deep_view() =~= before.push((path@, WantState::NoSource)));
                        assert(states.deep_view().drop_last() =~= before);
                    },
                    Selection::Deferred(need) => {
                        states.push((path.dup(), WantState::Deferred { need }));
                        assert(states.deep_view() =~= before.push(
                            (path@, WantState::Deferred { need }),
                        ));
                        assert(states.deep_view().drop_last() =~= before);
                    },
                }
            }
            proof {
                assert forall|k: ((Tier, NodeId), Seq<u8>)| #[trigger]
                    fetchable@.contains_key(k) <==> fk.contains(k) && ks.take(i + 1).contains(
                        k.1,
                    ) by {
                    lemma_take_contains(ks, i as int, k.1);
                    assert(was.contains_key(k) <==> fk.contains(k) && ks.take(i as int).contains(
                        k.1,
                    ));
                }
            }
            i = i + 1;
        }
        proof {
            assert(ks.take(i as int) =~= ks);
            assert(fetchable@.dom() =~= fk);
        }
        (fetchable, states)
    }

    /// Sets the states of some wants.
    fn set_each(&mut self, list: &Vec<(RelPath, WantState)>)
        ensures
            final(self)@ == old(self)@.with_each(list.deep_view()),
    {
        let ghost l = list.deep_view();
        let ghost start = self@;
        let mut i: usize = 0;
        assert(l.take(0) =~= Seq::empty());
        while i < list.len()
            invariant
                i <= list.len(),
                l == list.deep_view(),
                self@ == start.with_each(l.take(i as int)),
            decreases list.len() - i,
        {
            assert(l.take(i + 1).drop_last() =~= l.take(i as int));
            assert(l.take(i + 1).last() == list@[i as int].deep_view());
            self.set_state(&list[i].0, list[i].1);
            i = i + 1;
        }
        assert(l.take(i as int) =~= l);
    }

    /// How many fetches run from each node.
    fn count_fetches(&self) -> (r: OrdMap<NodeId, u64>)
        ensures
            forall|node: NodeId| #[trigger] count_of(r@, node) == self@.fetching_from(node),
    {
        let mut counts: OrdMap<NodeId, u64> = OrdMap::new();
        let n: usize = self.wants.len();
        let ghost ks = self@.paths();
        let mut i: usize = 0;
        assert(ks.take(0) =~= Seq::empty());
        while i < n
            invariant
                i <= n,
                n == self.wants@.dom().len(),
                n == ks.len(),
                self@.wants == self.wants@,
                ks == self@.paths(),
                forall|node: NodeId| #[trigger]
                    count_of(counts@, node) == fetching_from_among(
                        self@.wants,
                        ks.take(i as int),
                        node,
                    ),
            decreases n - i,
        {
            assert(ks.take(i + 1).drop_last() =~= ks.take(i as int));
            let ghost was = counts@;
            if let WantState::Fetching { from, .. } = self.wants.value_at(i).state {
                let c: u64 = match counts.get(&from) {
                    Some(c) => *c,
                    None => 0,
                };
                proof {
                    assert(count_of(was, from) == c);
                    lemma_fetching_bound(self@.wants, ks.take(i as int), from);
                }
                counts.insert(from, c + 1);
            }
            proof {
                assert forall|node: NodeId| #[trigger]
                    count_of(counts@, node) == fetching_from_among(
                        self@.wants,
                        ks.take(i + 1),
                        node,
                    ) by {
                    assert(count_of(was, node) == fetching_from_among(
                        self@.wants,
                        ks.take(i as int),
                        node,
                    ));
                }
            }
            i = i + 1;
        }
        assert(ks.take(i as int) =~= ks);
        counts
    }

    /// The first of some sources with a free slot.
    fn free_source(
        sources: &Vec<(Tier, NodeId)>,
        counts: &OrdMap<NodeId, u64>,
        rules: &Rules,
        Ghost(list): Ghost<WantListView>,
    ) -> (r: Option<NodeId>)
        requires
            forall|node: NodeId| #[trigger] count_of(counts@, node) == list.fetching_from(node),
        ensures
            r == list.free_source(sources.deep_view(), *rules),
    {
        let ghost l = sources.deep_view();
        let mut i: usize = 0;
        assert(l.take(0) =~= Seq::empty());
        while i < sources.len()
            invariant
                i <= sources.len(),
                l == sources.deep_view(),
                list.free_source(l.take(i as int), *rules) is None,
                forall|node: NodeId| #[trigger] count_of(counts@, node) == list.fetching_from(node),
            decreases sources.len() - i,
        {
            assert(l.take(i + 1).drop_last() =~= l.take(i as int));
            assert(l.take(i + 1).last() == sources@[i as int].deep_view());
            let node: NodeId = sources[i].1;
            let c: u64 = match counts.get(&node) {
                Some(c) => *c,
                None => 0,
            };
            assert(count_of(counts@, node) == c);
            if c < rules.max_fetches_per_peer as u64 {
                proof {
                    lemma_free_source_stays(list, l, i + 1, *rules);
                }
                return Some(node);
            }
            i = i + 1;
        }
        assert(l.take(i as int) =~= l);
        None
    }

    /// Gives sources to wants, in the order of tier, node and path, while slots are free.
    fn assign(
        &mut self,
        now: Timestamp,
        rules: &Rules,
        peers: &OrdMap<NodeId, Tier>,
    ) -> (steps: Vec<WantStep>)
        ensures
            (Dispatched { list: final(self)@, steps: steps.deep_view() }) == old(
                self,
            )@.fetch_phase(now, *rules, peers@),
    {
        let ghost start = self@;
        let ghost from = self@.wants;
        let (fetchable, states) = self.plan(rules, peers);
        self.set_each(&states);
        let mut steps: Vec<WantStep> = Vec::new();
        let ghost d0 = Dispatched { list: self@, steps: Seq::empty() };
        let mut counts: OrdMap<NodeId, u64> = self.count_fetches();
        let mut total: usize = self.fetching();
        let n: usize = fetchable.len();
        let ghost ks = in_order(fetch_keys(from, *rules, peers@));
        let mut i: usize = 0;
        proof {
            lemma_reselected(start, start.paths(), *rules, peers@);
            lemma_order_facts(fetchable@.dom());
            assert(ks.take(0) =~= Seq::empty());
            assert(steps.deep_view() =~= Seq::empty());
        }
        let wanted: usize = self.wants.len();
        while i < n
            invariant
                i <= n,
                n == fetchable@.dom().len(),
                n == ks.len(),
                ks == in_order(fetchable@.dom()),
                fetchable@.dom() == fetch_keys(from, *rules, peers@),
                ks.no_duplicates(),
                forall|j: int| 0 <= j < ks.len() ==> fetchable@.contains_key(#[trigger] ks[j]),
                forall|k: ((Tier, NodeId), Seq<u8>)| #[trigger]
                    fetchable@.contains_key(k) ==> fetchable@[k] == selected(
                        from[k.1],
                        *rules,
                        peers@,
                    )->Sources_0,
                self@.wants.dom().finite(),
                same_but_state(from, self@.wants),
                forall|j: int|
                    i <= j < ks.len() ==> self@.wants[(#[trigger] ks[j]).1] == from[ks[j].1],
                total == self@.fetching(),
                forall|node: NodeId| #[trigger] count_of(counts@, node) == self@.fetching_from(node),
                (Dispatched { list: self@, steps: steps.deep_view() }) == d0.fetches(
                    from,
                    ks.take(i as int),
                    now,
                    *rules,
                    peers@,
                ),
            decreases n - i,
        {
            let key = fetchable.key_at(i);
            let path = &key.1;
            let sources = fetchable.value_at(i);
            let ghost before = self@;
            let ghost before_steps = steps.deep_view();
            let ghost before_counts = counts@;
            proof {
                assert(key.key() == ks[i as int]);
                assert(fetchable@.contains_key(ks[i as int]));
                assert(fetch_keys(from, *rules, peers@).contains(ks[i as int]));
                assert(from.contains_key(path@));
                assert(seeks(from[path@]));
                assert(before.wants[path@] == from[path@]);
                lemma_take_contains(ks, i as int, ks[i as int]);
                assert(ks.take(i + 1).last() == ks[i as int]);
                assert forall|j: int| i < j < ks.len() implies (#[trigger] ks[j]).1 != path@ by {
                    assert(fetchable@.contains_key(ks[j]));
                    assert(fetch_keys(from, *rules, peers@).contains(ks[j]));
                    if ks[j].1 == path@ {
                        assert(ks[j] == ks[i as int]);
                    }
                }
                assert(before.wants.contains_key(path@));
            }
            let node: Option<NodeId> = if total as u64 >= rules.max_fetches_per_folder as u64 {
                None
            } else {
                WantList::free_source(sources, &counts, rules, Ghost(before))
            };
            match node {
                None => {
                    self.set_state(path, WantState::Wanted);
                    proof {
                        let w = WantView { state: WantState::Wanted, ..before.wants[path@] };
                        assert forall|node: NodeId| #[trigger]
                            count_of(counts@, node) == self@.fetching_from(node) by {
                            assert(count_of(before_counts, node) == before.fetching_from(node));
                            lemma_put_counts(before, path@, w, node);
                        }
                        lemma_put_counts(before, path@, w, before.wants[path@].source);
                        assert(self@.wants.dom() =~= before.wants.dom());
                    }
                },
                Some(node) => {
                    let state = WantState::Fetching {
                        from: node,
                        deadline: now.plus_nanos(FETCH_STALL_NANOS),
                    };
                    let version = match self.wants.get(path) {
                        Some(w) => w.version().dup(),
                        None => Version::empty(),
                    };
                    let c: u64 = match counts.get(&node) {
                        Some(c) => *c,
                        None => 0,
                    };
                    proof {
                        assert(count_of(before_counts, node) == c);
                        lemma_order_facts(before.wants.dom());
                        lemma_fetching_bound(before.wants, before.paths(), node);
                    }
                    counts.insert(node, c + 1);
                    total = total + 1;
                    steps.push(WantStep::Fetch { path: path.dup(), version, from: node });
                    self.set_state(path, state);
                    proof {
                        let w = WantView { state, ..before.wants[path@] };
                        assert forall|m: NodeId| #[trigger]
                            count_of(counts@, m) == self@.fetching_from(m) by {
                            assert(count_of(before_counts, m) == before.fetching_from(m));
                            lemma_put_counts(before, path@, w, m);
                        }
                        lemma_put_counts(before, path@, w, node);
                        assert(self@.wants.dom() =~= before.wants.dom());
                        assert(steps.deep_view() =~= before_steps.push(
                            WantStepView::Fetch {
                                path: path@,
                                version: from[path@].entry.version,
                                from: node,
                            },
                        ));
                    }
                },
            }
            i = i + 1;
        }
        assert(ks.take(i as int) =~= ks);
        steps
    }

    /// The paths to commit: creations with parents first, then deletions with children first.
    fn commit_order(&self) -> (r: Vec<RelPath>)
        ensures
            r.deep_view() == self@.commit_order(),
    {
        let n: usize = self.wants.len();
        let ghost ks = self@.paths();
        let mut out: Vec<RelPath> = Vec::new();
        let mut deletes: Vec<RelPath> = Vec::new();
        let mut i: usize = 0;
        assert(ks.take(0) =~= Seq::empty());
        assert(out.deep_view() =~= creates_among(self@.wants, ks.take(0)));
        assert(deletes.deep_view() =~= deletes_among(self@.wants, ks.take(0)));
        while i < n
            invariant
                i <= n,
                n == self.wants@.dom().len(),
                n == ks.len(),
                self@.wants == self.wants@,
                ks == self@.paths(),
                out.deep_view() == creates_among(self@.wants, ks.take(i as int)),
                deletes.deep_view() == deletes_among(self@.wants, ks.take(i as int)),
            decreases n - i,
        {
            let path = self.wants.key_at(i);
            let w = self.wants.value_at(i);
            let ghost before = out.deep_view();
            let ghost before_deletes = deletes.deep_view();
            assert(ks.take(i + 1).drop_last() =~= ks.take(i as int));
            let waiting = matches!(
                w.state,
                WantState::Wanted | WantState::Blocked | WantState::Deferred { .. } | WantState::NoSource
            );
            if !w.needs_fetch() && waiting {
                if w.is_delete() {
                    deletes.push(path.dup());
                    assert(deletes.deep_view() =~= before_deletes.push(path@));
                } else {
                    out.push(path.dup());
                    assert(out.deep_view() =~= before.push(path@));
                }
            }
            i = i + 1;
        }
        assert(ks.take(i as int) =~= ks);
        let ghost creates = out.deep_view();
        let ghost back = deletes.deep_view().reverse();
        let mut j: usize = deletes.len();
        assert(out.deep_view() =~= creates + back.take(0));
        while j > 0
            invariant
                j <= deletes.len(),
                back == deletes.deep_view().reverse(),
                out.deep_view() == creates + back.take(deletes.len() - j),
            decreases j,
        {
            let ghost before = out.deep_view();
            j = j - 1;
            out.push(deletes[j].dup());
            proof {
                assert(back[deletes.len() - j - 1] == deletes@[j as int]@);
                assert(out.deep_view() =~= before.push(deletes@[j as int]@));
                assert(out.deep_view() =~= creates + back.take(deletes.len() - j));
            }
        }
        assert(back.take(deletes.len() as int) =~= back);
        out
    }

    /// Decides what to do next for every want: assigns fetch slots in the order of tier, node and
    /// path within the limits, and commits whatever has its content and need not wait.
    pub fn dispatch(
        &mut self,
        now: Timestamp,
        rules: &Rules,
        peers: &OrdMap<NodeId, Tier>,
    ) -> (r: Vec<WantStep>)
        ensures
            (Dispatched { list: final(self)@, steps: r.deep_view() }) == old(self)@.dispatched(
                now,
                *rules,
                peers@,
            ),
    {
        let mut steps = self.assign(now, rules, peers);
        let ghost d = Dispatched { list: self@, steps: steps.deep_view() };
        let order = self.commit_order();
        let ghost ps = order.deep_view();
        let mut i: usize = 0;
        assert(ps.take(0) =~= Seq::empty());
        while i < order.len()
            invariant
                i <= order.len(),
                ps == order.deep_view(),
                (Dispatched { list: self@, steps: steps.deep_view() }) == d.commits(
                    ps.take(i as int),
                    now,
                ),
            decreases order.len() - i,
        {
            let path = &order[i];
            let ghost before = steps.deep_view();
            proof {
                assert(ps.take(i + 1).drop_last() =~= ps.take(i as int));
                assert(ps.take(i + 1).last() == path@);
            }
            if let Some(want) = self.wants.get(path) {
                let want = want.dup();
                if self.gated(&want) {
                    self.set_state(path, WantState::Blocked);
                } else if want.mode == ApplyMode::IndexOnly {
                    self.remove(path);
                    let ghost w = want@;
                    steps.push(WantStep::Adopt(Box::new(want)));
                    assert(steps.deep_view() =~= before.push(WantStepView::Adopt(w)));
                } else {
                    let ghost w = want@;
                    steps.push(WantStep::Commit(Box::new(want)));
                    assert(steps.deep_view() =~= before.push(WantStepView::Commit(w)));
                    self.set_state(
                        path,
                        WantState::Committing { deadline: now.plus_nanos(COMMIT_DEADLINE_NANOS) },
                    );
                }
            }
            i = i + 1;
        }
        assert(ps.take(i as int) =~= ps);
        steps
    }
}

proof fn lemma_free_source_stays(
    list: WantListView,
    l: Seq<(Tier, NodeId)>,
    n: int,
    rules: Rules,
)
    requires
        0 <= n <= l.len(),
        list.free_source(l.take(n), rules) is Some,
    ensures
        list.free_source(l, rules) == list.free_source(l.take(n), rules),
    decreases l.len(),
{
    if n == l.len() {
        assert(l.take(n) =~= l);
    } else {
        let t = l.drop_last();
        assert(t.take(n) =~= l.take(n));
        lemma_free_source_stays(list, t, n, rules);
    }
}

} // verus!
