//! Nothing that arrives is lost: every entry ends up wanted, quarantined or waiting.

use crate::batch::{apply_set_of, classified, last_by_path, BatchView, ItemView};
use crate::brake::{verdict, weight, Verdict};
use crate::entry::EntryView;
use crate::folder_view::{paired, raws_for, DeferredView, FolderView, Receiving};
use crate::id::{BatchId, NodeId};
use crate::laws::filing::{filed, law_join_filed, law_matches_exist};
use crate::laws::judging::{law_apply_set_exactly, law_last_entry_counts};
use crate::laws::receiving::{law_item_is_sorted, law_passed_is_wanted_or_waits, wanted_already};
use crate::laws::sourcing::{holds_all, law_arrival};
use crate::order::{in_order, lemma_order_facts};
use crate::quarantine::{first_match, HeldItemView, QuarantineView};
use crate::time::Timestamp;
use crate::version::Vector;
use crate::want::{WantListView, WantView};
use vstd::prelude::*;

verus! {

/// Whether a version is quarantined at a path.
pub open spec fn quarantined(q: QuarantineView, p: Seq<u8>, v: Vector) -> bool {
    exists|i: int| 0 <= i < q.list(p).len() && (#[trigger] q.list(p)[i]).1.version == v
}

/// Whether what is wanted at a path holds everything that a version holds.
pub open spec fn wanted_or_more(w: WantListView, p: Seq<u8>, v: Vector) -> bool {
    w.wants.contains_key(p) && holds_all(w.wants[p].entry.version, v)
}

/// Whether an entry waits at a path.
pub open spec fn waits(f: FolderView, p: Seq<u8>, e: EntryView) -> bool {
    exists|i: int| 0 <= i < f.waiting(p).len() && (#[trigger] f.waiting(p)[i]).entry == e
}

/// Whether an entry, and the item that it came to, are accounted for: wanted, or superseded by
/// what is wanted; quarantined; or waiting.
pub open spec fn accounted(f: FolderView, item: ItemView, raw: EntryView) -> bool {
    ||| wanted_or_more(f.wants, item.entry.path, item.entry.version)
    ||| quarantined(f.quarantine, raw.path, raw.version)
    ||| waits(f, item.entry.path, item.entry)
    ||| waits(f, item.entry.path, raw)
}

// ---- quarantining -----------------------------------------------------------

proof fn lemma_recorded(
    q: QuarantineView,
    path: Seq<u8>,
    version: Vector,
    stamp: i64,
    batch: BatchId,
    p: Seq<u8>,
    v: Vector,
)
    ensures
        quarantined(q, p, v) ==> quarantined(q.recorded(path, version, stamp, batch), p, v),
        quarantined(q.recorded(path, version, stamp, batch), path, version),
{
    let r = q.recorded(path, version, stamp, batch);
    if crate::quarantine::holds_version(q.list(path), batch, version) {
        let i = choose|i: int|
            0 <= i < q.list(path).len() && (#[trigger] q.list(path)[i]).0 == batch && q.list(
                path,
            )[i].1.version == version;
        assert(r.list(path)[i].1.version == version);
    } else {
        let n = q.list(path).len() as int;
        assert(r.list(path)[n].1.version == version);
    }
    if quarantined(q, p, v) {
        let i = choose|i: int| 0 <= i < q.list(p).len() && (#[trigger] q.list(p)[i]).1.version == v;
        assert(r.list(p)[i].1.version == v);
    }
}

proof fn lemma_same_versions(a: QuarantineView, b: QuarantineView, p: Seq<u8>, v: Vector)
    requires
        a.versions == b.versions,
    ensures
        quarantined(a, p, v) == quarantined(b, p, v),
{
    assert(a.list(p) == b.list(p));
    if quarantined(a, p, v) {
        let i = choose|i: int| 0 <= i < a.list(p).len() && (#[trigger] a.list(p)[i]).1.version == v;
        assert(b.list(p)[i].1.version == v);
    }
    if quarantined(b, p, v) {
        let i = choose|i: int| 0 <= i < b.list(p).len() && (#[trigger] b.list(p)[i]).1.version == v;
        assert(a.list(p)[i].1.version == v);
    }
}

/// What joins a held item is quarantined, and nothing that was quarantined stops being so.
pub proof fn law_joining_quarantines(
    q: QuarantineView,
    batch: BatchId,
    e: EntryView,
    p: Seq<u8>,
    v: Vector,
)
    ensures
        quarantined(q, p, v) ==> quarantined(q.joined(batch, e), p, v),
        q.items.contains_key(batch) ==> quarantined(q.joined(batch, e), e.path, e.version),
        q.joined(batch, e).items.dom() =~= q.items.dom(),
{
    let r = q.recorded(e.path, e.version, e.stamp, batch);
    lemma_recorded(q, e.path, e.version, e.stamp, batch, p, v);
    if q.items.contains_key(batch) {
        lemma_same_versions(r, q.joined(batch, e), p, v);
        lemma_same_versions(r, q.joined(batch, e), e.path, e.version);
    }
}

proof fn lemma_recorded_all(
    q: QuarantineView,
    entries: Map<Seq<u8>, EntryView>,
    ks: Seq<Seq<u8>>,
    batch: BatchId,
    p: Seq<u8>,
    v: Vector,
)
    ensures
        quarantined(q, p, v) ==> quarantined(q.recorded_all(entries, ks, batch), p, v),
        (exists|i: int|
            0 <= i < ks.len() && entries[#[trigger] ks[i]].path == p && entries[ks[i]].version
                == v) ==> quarantined(q.recorded_all(entries, ks, batch), p, v),
    decreases ks.len(),
{
    if ks.len() > 0 {
        let t = ks.drop_last();
        lemma_recorded_all(q, entries, t, batch, p, v);
        let e = entries[ks.last()];
        lemma_recorded(q.recorded_all(entries, t, batch), e.path, e.version, e.stamp, batch, p, v);
        if exists|i: int|
            0 <= i < ks.len() && entries[#[trigger] ks[i]].path == p && entries[ks[i]].version
                == v {
            let i = choose|i: int|
                0 <= i < ks.len() && entries[#[trigger] ks[i]].path == p && entries[ks[i]].version
                    == v;
            if i < t.len() {
                assert(t[i] == ks[i]);
            }
        }
    }
}

proof fn lemma_joined_all(
    q: QuarantineView,
    entries: Map<Seq<u8>, EntryView>,
    ks: Seq<Seq<u8>>,
    batch: BatchId,
    p: Seq<u8>,
    v: Vector,
)
    ensures
        q.joined_all(entries, ks, batch).items.dom() =~= q.items.dom(),
        quarantined(q, p, v) ==> quarantined(q.joined_all(entries, ks, batch), p, v),
        q.items.contains_key(batch) && (exists|i: int|
            0 <= i < ks.len() && entries[#[trigger] ks[i]].path == p && entries[ks[i]].version
                == v) ==> quarantined(q.joined_all(entries, ks, batch), p, v),
    decreases ks.len(),
{
    if ks.len() > 0 {
        let t = ks.drop_last();
        lemma_joined_all(q, entries, t, batch, p, v);
        let e = entries[ks.last()];
        law_joining_quarantines(q.joined_all(entries, t, batch), batch, e, p, v);
        if exists|i: int|
            0 <= i < ks.len() && entries[#[trigger] ks[i]].path == p && entries[ks[i]].version
                == v {
            let i = choose|i: int|
                0 <= i < ks.len() && entries[#[trigger] ks[i]].path == p && entries[ks[i]].version
                    == v;
            if i < t.len() {
                assert(t[i] == ks[i]);
            }
        }
    }
}

/// What is held is quarantined, entry by entry, and nothing that was quarantined stops being so.
pub proof fn law_holding_quarantines(q: QuarantineView, item: HeldItemView, p: Seq<u8>, v: Vector)
    requires
        item.entries.dom().finite(),
    ensures
        quarantined(q, p, v) ==> quarantined(q.held(item), p, v),
        item.entries.contains_key(p) && item.entries[p].path == p && item.entries[p].version == v
            ==> quarantined(q.held(item), p, v),
        q.held(item).items.contains_key(item.batch),
{
    let ks = in_order(item.entries.dom());
    lemma_order_facts(item.entries.dom());
    lemma_joined_all(q, item.entries, ks, item.batch, p, v);
    lemma_recorded_all(q, item.entries, ks, item.batch, p, v);
    let r = q.recorded_all(item.entries, ks, item.batch);
    if !q.items.contains_key(item.batch) {
        lemma_same_versions(r, q.held(item), p, v);
    }
    if item.entries.contains_key(p) {
        assert(item.entries.dom().contains(p));
        let i = choose|i: int| 0 <= i < ks.len() && ks[i] == p;
        assert(item.entries[ks[i]] == item.entries[p]);
    }
}

// ---- wanting ----------------------------------------------------------------

proof fn lemma_wanting(
    f: FolderView,
    item: ItemView,
    raw: EntryView,
    batch: BatchId,
    source: NodeId,
    seq_high: u64,
    x: ItemView,
    r: EntryView,
)
    ensures
        accounted(f, x, r) ==> accounted(
            f.wanting(item, raw, batch, source, seq_high),
            x,
            r,
        ),
        accounted(f.wanting(item, raw, batch, source, seq_high), item, raw),
{
    let g = f.wanting(item, raw, batch, source, seq_high);
    let p = item.entry.path;
    law_passed_is_wanted_or_waits(f, item, raw, batch, source, seq_high);
    law_arrival(f.wants, item, raw, batch, source, seq_high, p);
    law_arrival(f.wants, item, raw, batch, source, seq_high, x.entry.path);
    let q = x.entry.path;
    if f.wants.refuses(item) {
        let n = f.waiting(p).len() as int;
        assert(g.waiting(p)[n].entry == item.entry);
    }
    if waits(f, q, x.entry) {
        let i = choose|i: int|
            0 <= i < f.waiting(q).len() && (#[trigger] f.waiting(q)[i]).entry == x.entry;
        assert(g.waiting(q)[i] == f.waiting(q)[i]);
    }
    if waits(f, q, r) {
        let i = choose|i: int|
            0 <= i < f.waiting(q).len() && (#[trigger] f.waiting(q)[i]).entry == r;
        assert(g.waiting(q)[i] == f.waiting(q)[i]);
    }
    if wanted_or_more(f.wants, q, x.entry.version) && q == p {
        assert(holds_all(g.wants.wants[q].entry.version, f.wants.wants[q].entry.version));
        lemma_holds_chain(
            g.wants.wants[q].entry.version,
            f.wants.wants[q].entry.version,
            x.entry.version,
        );
    }
}

proof fn lemma_holds_chain(a: Vector, b: Vector, c: Vector)
    requires
        holds_all(a, b),
        holds_all(b, c),
    ensures
        holds_all(a, c),
{
    assert forall|n: NodeId| #[trigger]
        crate::version::counter_of(c, n) <= crate::version::counter_of(a, n) by {
        assert(crate::version::counter_of(c, n) <= crate::version::counter_of(b, n));
        assert(crate::version::counter_of(b, n) <= crate::version::counter_of(a, n));
    }
}

/// Items that passed the brake are accounted for, and nothing that was accounted for stops being
/// so.
pub proof fn law_passed_items_are_accounted_for(
    f: FolderView,
    pairs: Seq<(ItemView, EntryView)>,
    batch: BatchId,
    source: NodeId,
    seq_high: u64,
    x: ItemView,
    r: EntryView,
)
    ensures
        accounted(f, x, r) || pairs.contains((x, r)) ==> accounted(
            f.wanting_all(pairs, batch, source, seq_high),
            x,
            r,
        ),
    decreases pairs.len(),
{
    if pairs.len() > 0 {
        let t = pairs.drop_last();
        law_passed_items_are_accounted_for(f, t, batch, source, seq_high, x, r);
        let m = f.wanting_all(t, batch, source, seq_high);
        lemma_wanting(m, pairs.last().0, pairs.last().1, batch, source, seq_high, x, r);
        if pairs.contains((x, r)) {
            let i = choose|i: int| 0 <= i < pairs.len() && pairs[i] == (x, r);
            if i < t.len() {
                assert(t[i] == (x, r));
            }
        }
    }
}

// ---- a batch ----------------------------------------------------------------

/// Whether an item is accounted for, or goes on to the brake.
spec fn placed(r: Receiving, item: ItemView, raw: EntryView) -> bool {
    accounted(r.folder, item, raw) || r.kept.contains(item)
}

proof fn lemma_sort_all(
    r: Receiving,
    items: Seq<ItemView>,
    raw: Map<Seq<u8>, EntryView>,
    batch: BatchView,
    x: ItemView,
)
    requires
        filed(r.folder.quarantine),
        forall|i: int| 0 <= i < items.len() ==> raw.contains_key((#[trigger] items[i]).entry.path),
        forall|p: Seq<u8>| #[trigger] raw.contains_key(p) ==> raw[p].path == p,
    ensures
        ({
            let t = r.sort_all(items, raw, batch);
            &&& filed(t.folder.quarantine)
            &&& items.contains(x) ==> placed(t, x, raw[x.entry.path])
        }),
    decreases items.len(),
{
    if items.len() > 0 {
        let u = items.drop_last();
        let z = items.len() - 1;
        assert forall|i: int| 0 <= i < u.len() implies raw.contains_key(
            (#[trigger] u[i]).entry.path,
        ) by {
            assert(u[i] == items[i]);
        }
        lemma_sort_all(r, u, raw, batch, x);
        let m = r.sort_all(u, raw, batch);
        let t = r.sort_all(items, raw, batch);
        let item = items.last();
        assert(items[z] == item);
        let p = item.entry.path;
        assert(raw.contains_key(items[z].entry.path));
        law_item_is_sorted(m, item, raw, batch);
        let list = m.folder.quarantine.list(raw[p].path);
        law_matches_exist(m.folder.quarantine, raw[p].path, raw[p].version);
        crate::laws::receiving::law_first_match_exactly(list, raw[p].version);
        let e = raw[x.entry.path];
        if first_match(list, raw[p].version) is Some {
            let held = first_match(list, raw[p].version)->0;
            law_join_filed(m.folder.quarantine, held, raw[p]);
            law_joining_quarantines(m.folder.quarantine, held, raw[p], e.path, e.version);
        }
        if items.contains(x) {
            let i = choose|i: int| 0 <= i < items.len() && items[i] == x;
            if i < u.len() {
                assert(u[i] == x);
                if t.kept != m.kept {
                    assert(t.kept.drop_last() =~= m.kept);
                }
                lemma_placed_stays(m, t, x, e);
            } else {
                lemma_placed_now(m, t, x, e, raw, batch);
            }
        }
    }
}

proof fn lemma_placed_stays(m: Receiving, t: Receiving, x: ItemView, e: EntryView)
    requires
        placed(m, x, e),
        t.folder.wants == m.folder.wants,
        quarantined(m.folder.quarantine, e.path, e.version) ==> quarantined(
            t.folder.quarantine,
            e.path,
            e.version,
        ),
        t.kept == m.kept || (t.kept.len() == m.kept.len() + 1 && t.kept.drop_last() == m.kept),
        t.folder.deferred == m.folder.deferred || exists|q: Seq<u8>, d: DeferredView|
            t.folder.deferred == #[trigger] m.folder.deferred.insert(
                q,
                m.folder.waiting(q).push(d),
            ),
    ensures
        placed(t, x, e),
{
    let p = x.entry.path;
    if m.kept.contains(x) {
        let i = choose|i: int| 0 <= i < m.kept.len() && m.kept[i] == x;
        if t.kept != m.kept {
            assert(t.kept.drop_last()[i] == t.kept[i]);
        }
        assert(t.kept[i] == x);
    }
    if waits(m.folder, p, x.entry) {
        let i = choose|i: int|
            0 <= i < m.folder.waiting(p).len() && (#[trigger] m.folder.waiting(p)[i]).entry
                == x.entry;
        assert(t.folder.waiting(p)[i] == m.folder.waiting(p)[i]);
    }
    if waits(m.folder, p, e) {
        let i = choose|i: int|
            0 <= i < m.folder.waiting(p).len() && (#[trigger] m.folder.waiting(p)[i]).entry == e;
        assert(t.folder.waiting(p)[i] == m.folder.waiting(p)[i]);
    }
}

proof fn lemma_placed_now(
    m: Receiving,
    t: Receiving,
    x: ItemView,
    e: EntryView,
    raw: Map<Seq<u8>, EntryView>,
    batch: BatchView,
)
    requires
        t == m.sort(x, raw, batch),
        raw.contains_key(x.entry.path),
        e == raw[x.entry.path],
        e.path == x.entry.path,
        filed(m.folder.quarantine),
    ensures
        placed(t, x, e),
{
    let p = x.entry.path;
    law_item_is_sorted(m, x, raw, batch);
    let list = m.folder.quarantine.list(p);
    law_matches_exist(m.folder.quarantine, p, e.version);
    crate::laws::receiving::law_first_match_exactly(list, e.version);
    if first_match(list, e.version) is Some {
        let held = first_match(list, e.version)->0;
        law_joining_quarantines(m.folder.quarantine, held, e, e.path, e.version);
    }
    let n = m.folder.waiting(p).len() as int;
    if t.frozen == m.frozen + 1 {
        assert(t.folder.waiting(p)[n].entry == e);
    }
    let k = m.kept.len() as int;
    if t.kept.len() > k {
        assert(t.kept[k] == x);
    }
    if wanted_already(m.folder.wants, p, x.entry.version) {
        assert(holds_all(m.folder.wants.wants[p].entry.version, x.entry.version));
    }
}

proof fn lemma_raws_for(items: Seq<ItemView>, raw: Map<Seq<u8>, EntryView>, x: ItemView)
    ensures
        raws_for(items, raw).dom().finite(),
        forall|p: Seq<u8>| #[trigger]
            raws_for(items, raw).contains_key(p) ==> raw.contains_key(p) && raws_for(items, raw)[p]
                == raw[p] && exists|i: int|
                0 <= i < items.len() && (#[trigger] items[i]).entry.path == p,
        items.contains(x) && raw.contains_key(x.entry.path) ==> raws_for(
            items,
            raw,
        ).contains_key(x.entry.path),
    decreases items.len(),
{
    if items.len() > 0 {
        let t = items.drop_last();
        let z = items.len() - 1;
        lemma_raws_for(t, raw, x);
        assert(items[z] == items.last());
        assert forall|p: Seq<u8>| #[trigger] raws_for(items, raw).contains_key(p) implies
            raw.contains_key(p) && raws_for(items, raw)[p] == raw[p] && exists|i: int|
            0 <= i < items.len() && (#[trigger] items[i]).entry.path == p by {
            if p != items.last().entry.path {
                assert(raws_for(t, raw).contains_key(p));
                let i = choose|i: int| 0 <= i < t.len() && (#[trigger] t[i]).entry.path == p;
                assert(items[i] == t[i]);
            }
        }
        if items.contains(x) {
            let i = choose|i: int| 0 <= i < items.len() && items[i] == x;
            if i < t.len() {
                assert(t[i] == x);
            }
        }
    }
}

/// What is held of a batch is, at the paths of the items that were held, exactly what was received
/// there.
pub proof fn law_held_is_what_was_received(
    items: Seq<ItemView>,
    raw: Map<Seq<u8>, EntryView>,
    p: Seq<u8>,
)
    ensures
        raws_for(items, raw).contains_key(p) <==> raw.contains_key(p) && exists|i: int|
            0 <= i < items.len() && (#[trigger] items[i]).entry.path == p,
        raws_for(items, raw).contains_key(p) ==> raws_for(items, raw)[p] == raw[p],
{
    if raw.contains_key(p) && exists|i: int|
        0 <= i < items.len() && (#[trigger] items[i]).entry.path == p {
        let i = choose|i: int| 0 <= i < items.len() && (#[trigger] items[i]).entry.path == p;
        assert(items.contains(items[i]));
        lemma_raws_for(items, raw, items[i]);
    }
    lemma_raws_for(items, raw, vstd::pervasive::arbitrary::<ItemView>());
}

/// Whatever a batch brings that is news at a path is accounted for once it was received: it is
/// wanted, or something that holds all of it is; or it is quarantined; or it waits.
pub proof fn law_every_entry_is_accounted_for(
    f: FolderView,
    now: Timestamp,
    batch: BatchView,
    p: Seq<u8>,
)
    requires
        f.index.well_formed(),
        filed(f.quarantine),
        last_by_path(batch.entries).contains_key(p),
        classified(f.index, last_by_path(batch.entries)[p]).item is Some,
    ensures
        ({
            let e = last_by_path(batch.entries)[p];
            accounted(
                f.received(now, batch).folder,
                classified(f.index, e).item->0,
                e,
            )
        }),
{
    let raw = last_by_path(batch.entries);
    let e = raw[p];
    let s = FolderView {
        index: f.index.received(batch.source, batch.seq_low, batch.seq_high),
        ..f
    };
    crate::laws::index::law_settling_well_formed(
        f.index,
        batch.source,
        batch.seq_low,
        batch.seq_high,
    );
    assert(classified(s.index, e) == classified(f.index, e));
    let x = classified(f.index, e).item->0;
    let set = apply_set_of(s.index, batch);
    law_apply_set_exactly(s.index, batch, x);
    assert(set.items.contains(x));
    crate::batch::law_candidates_dominate(f.index, e);
    law_last_entry_counts(batch.entries, p);
    assert(e.path == p);
    assert(x.entry.path == p);
    assert forall|q: Seq<u8>| #[trigger] raw.contains_key(q) implies raw[q].path == q by {
        law_last_entry_counts(batch.entries, q);
    }
    crate::batch::lemma_apply_set_paths(s.index, batch);
    let c = s.counting(set.fallbacks);
    let t = c.sourced(raw, in_order(raw.dom()), batch.source);
    lemma_sourced(c, raw, in_order(raw.dom()), batch.source);
    let r0 = Receiving {
        folder: t,
        kept: Seq::empty(),
        joined: 0,
        frozen: 0,
        already_wanted: 0,
    };
    lemma_sort_all(r0, set.items, raw, batch, x);
    let r = f.receiving(batch);
    let summary = weight(r.folder.index, r.kept);
    let g = f.received(now, batch).folder;
    match verdict(r.folder.rules, summary, r.folder.index.tracked_count() as usize) {
        Verdict::Hold(reason) => {
            lemma_raws_for(r.kept, raw, x);
            let item = HeldItemView {
                batch: batch.id,
                source: batch.source,
                seq_high: batch.seq_high,
                held_at: now,
                reason,
                entries: raws_for(r.kept, raw),
            };
            law_holding_quarantines(r.folder.quarantine, item, p, e.version);
            if waits(r.folder, p, x.entry) {
                let i = choose|i: int|
                    0 <= i < r.folder.waiting(p).len() && (#[trigger] r.folder.waiting(p)[i]).entry
                        == x.entry;
                assert(g.waiting(p)[i].entry == x.entry);
            }
            if waits(r.folder, p, e) {
                let i = choose|i: int|
                    0 <= i < r.folder.waiting(p).len() && (#[trigger] r.folder.waiting(p)[i]).entry
                        == e;
                assert(g.waiting(p)[i].entry == e);
            }
        },
        Verdict::Pass => {
            let pairs = paired(r.kept, raw);
            if r.kept.contains(x) {
                let i = choose|i: int| 0 <= i < r.kept.len() && r.kept[i] == x;
                assert(pairs[i] == (x, e));
            }
            law_passed_items_are_accounted_for(
                r.folder,
                pairs,
                batch.id,
                batch.source,
                batch.seq_high,
                x,
                e,
            );
        },
    }
}

proof fn lemma_sourced(
    f: FolderView,
    raw: Map<Seq<u8>, EntryView>,
    ks: Seq<Seq<u8>>,
    source: NodeId,
)
    ensures
        ({
            let t = f.sourced(raw, ks, source);
            t == (FolderView { wants: t.wants, ..f })
        }),
    decreases ks.len(),
{
    if ks.len() > 0 {
        lemma_sourced(f, raw, ks.drop_last(), source);
    }
}

/// A sender that announces the version which is wanted at a path, whatever else it sends, is a
/// source of it from then on; no want changes but for its sources.
pub proof fn law_senders_are_sources(
    f: FolderView,
    raw: Map<Seq<u8>, EntryView>,
    ks: Seq<Seq<u8>>,
    source: NodeId,
    p: Seq<u8>,
)
    ensures
        ({
            let t = f.sourced(raw, ks, source);
            let w = f.wants.wants[p];
            &&& t.wants.wants.contains_key(p) == f.wants.wants.contains_key(p)
            &&& f.wants.wants.contains_key(p) ==> if ks.contains(p) && raw[p].version
                == w.entry.version {
                t.wants.wants[p] =~= (WantView {
                    sources: w.sources.insert(source),
                    answered: w.answered.remove(source),
                    ..w
                })
            } else {
                t.wants.wants[p] == w
            }
        }),
    decreases ks.len(),
{
    if ks.len() > 0 {
        let u = ks.drop_last();
        let z = ks.len() - 1;
        law_senders_are_sources(f, raw, u, source, p);
        let m = f.sourced(raw, u, source);
        crate::laws::sourcing::law_announcement_names_a_source(
            m.wants,
            ks.last(),
            raw[ks.last()].version,
            source,
            p,
        );
        assert(ks[z] == ks.last());
        if ks.contains(p) {
            let i = choose|i: int| 0 <= i < ks.len() && ks[i] == p;
            if i < u.len() {
                assert(u[i] == p);
            }
        }
        if u.contains(p) {
            let i = choose|i: int| 0 <= i < u.len() && u[i] == p;
            assert(ks[i] == p);
        }
        let w = f.wants.wants[p];
        assert(w.sources.insert(source).insert(source) =~= w.sources.insert(source));
        assert(w.answered.remove(source).remove(source) =~= w.answered.remove(source));
    }
}

proof fn lemma_sorting_wants_nothing(
    r: Receiving,
    items: Seq<ItemView>,
    raw: Map<Seq<u8>, EntryView>,
    batch: BatchView,
)
    ensures
        r.sort_all(items, raw, batch).folder.wants == r.folder.wants,
    decreases items.len(),
{
    if items.len() > 0 {
        lemma_sorting_wants_nothing(r, items.drop_last(), raw, batch);
    }
}

/// Before anything of a batch is decided, its sender is a source of every want for a version that
/// the batch names last at its path; and no other want has changed.
pub proof fn law_receiving_names_the_sender(f: FolderView, batch: BatchView, p: Seq<u8>)
    requires
        f.wants.wants.contains_key(p),
    ensures
        ({
            let w = f.wants.wants[p];
            let x = f.receiving(batch).folder.wants.wants;
            let raw = last_by_path(batch.entries);
            &&& x.contains_key(p)
            &&& if raw.contains_key(p) && raw[p].version == w.entry.version {
                x[p] =~= (WantView {
                    sources: w.sources.insert(batch.source),
                    answered: w.answered.remove(batch.source),
                    ..w
                })
            } else {
                x[p] == w
            }
        }),
{
    let s = FolderView {
        index: f.index.received(batch.source, batch.seq_low, batch.seq_high),
        ..f
    };
    let set = apply_set_of(s.index, batch);
    let raw = last_by_path(batch.entries);
    crate::laws::judging::lemma_last_finite(batch.entries);
    lemma_order_facts(raw.dom());
    let ks = in_order(raw.dom());
    assert(raw.dom().contains(p) <==> ks.contains(p));
    let c = s.counting(set.fallbacks);
    law_senders_are_sources(c, raw, ks, batch.source, p);
    lemma_sorting_wants_nothing(
        Receiving {
            folder: c.sourced(raw, ks, batch.source),
            kept: Seq::empty(),
            joined: 0,
            frozen: 0,
            already_wanted: 0,
        },
        set.items,
        raw,
        batch,
    );
}

} // verus!
