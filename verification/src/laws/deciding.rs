//! What a person's decisions do, and what is looked at again when something changes.

use crate::batch::{classified, law_candidates_dominate, ItemView};
use crate::brake::{verdict, weight, Verdict};
use crate::entry::EntryView;
use crate::folder::DeferredReason;
use crate::folder_view::{
    as_candidates, by_path, candidates_of, items_of, joined_statuses, kept, released_among, taken,
    CandidateView, DeferredView, FolderView, Groups, Sorting,
};
use crate::id::{BatchId, NodeId};
use crate::index::{IndexView, RevertedView};
use crate::laws::accounting::{accounted, waits};
use crate::laws::filing::filed;
use crate::laws::letting::{law_every_candidate_is_accounted_for, law_path_order, origin};
use crate::laws::sourcing::law_announcement_names_a_source;
use crate::order::{in_order, increasing, lemma_order_facts, Ordered};
use crate::quarantine::{HeldItemView, QuarantineView};
use crate::time::Timestamp;
use crate::version::Vector;
use crate::want::WantView;
use vstd::prelude::*;

verus! {

// ---- looking again ----------------------------------------------------------

proof fn lemma_naming(
    f: FolderView,
    path: Seq<u8>,
    version: Vector,
    by: Seq<NodeId>,
    x: ItemView,
    r: EntryView,
)
    ensures
        accounted(f, x, r) ==> accounted(f.naming(path, version, by), x, r),
        ({
            let g = f.naming(path, version, by);
            &&& g == (FolderView { wants: g.wants, ..f })
            &&& g.wants.wants.contains_key(path) == f.wants.wants.contains_key(path)
            &&& f.wants.wants.contains_key(path) ==> g.wants.wants[path].entry
                == f.wants.wants[path].entry
            &&& f.wants.wants.contains_key(path) && f.wants.wants[path].entry.version == version
                ==> g.wants.wants[path].sources =~= f.wants.wants[path].sources.union(by.to_set())
        }),
    decreases by.len(),
{
    if by.len() > 0 {
        let t = by.drop_last();
        lemma_naming(f, path, version, t, x, r);
        let m = f.naming(path, version, t);
        let g = f.naming(path, version, by);
        law_announcement_names_a_source(m.wants, path, version, by.last(), path);
        law_announcement_names_a_source(m.wants, path, version, by.last(), x.entry.path);
        if waits(m, x.entry.path, x.entry) {
            let p = x.entry.path;
            let i = choose|i: int|
                0 <= i < m.waiting(p).len() && (#[trigger] m.waiting(p)[i]).entry == x.entry;
            assert(g.waiting(p)[i].entry == x.entry);
        }
        if waits(m, x.entry.path, r) {
            let p = x.entry.path;
            let i = choose|i: int|
                0 <= i < m.waiting(p).len() && (#[trigger] m.waiting(p)[i]).entry == r;
            assert(g.waiting(p)[i].entry == r);
        }
        assert(by =~= t.push(by.last()));
        t.lemma_push_to_set_commute(by.last());
    }
}

proof fn lemma_rederived(
    f: FolderView,
    now: Timestamp,
    path: Seq<u8>,
    old: WantView,
    entry: EntryView,
)
    requires
        f.index.well_formed(),
        filed(f.quarantine),
        entry.path == path,
        old.received.path == path,
        f.wants.wants.contains_key(path),
    ensures
        ({
            let g = f.rederived(now, path, old, entry);
            match classified(f.index, entry).item {
                None => {
                    &&& g.wants.wants == f.wants.wants.remove(path)
                    &&& g.quarantine == f.quarantine
                    &&& g.deferred == f.deferred
                },
                Some(x) => accounted(g, x, old.received) && (x.entry.version == old.entry.version
                    && g.wants.wants.contains_key(path) && g.wants.wants[path].entry.version
                    == old.entry.version && old.sources.finite() ==> old.sources.subset_of(
                    g.wants.wants[path].sources,
                )),
            }
        }),
{
    reveal(FolderView::rederived);
    let c = classified(f.index, entry);
    law_candidates_dominate(f.index, entry);
    let s = FolderView { wants: f.wants.removed(path), ..f }.counting(
        if c.fallback {
            1
        } else {
            0
        },
    );
    match c.item {
        None => {},
        Some(x) => {
            let cs = seq![
                CandidateView {
                    item: x,
                    raw: old.received,
                    batch: old.batch,
                    source: old.source,
                    seq_high: old.seq_high,
                },
            ];
            law_every_candidate_is_accounted_for(s, now, cs, true, 0);
            let t = s.let_in(now, cs, true);
            lemma_naming(t, path, old.entry.version, in_order(old.sources), x, old.received);
            if old.sources.finite() {
                lemma_order_facts(old.sources);
                assert(in_order(old.sources).to_set() =~= old.sources);
            }
        },
    }
}

/// When the record under a want changed, what is wanted is judged against the new record: if it is
/// no news any more the want is gone and nothing else changes; else it is accounted for, as if it
/// had just arrived, and if it is wanted again it keeps its sources. After a revert the same is done
/// with what was received.
pub proof fn law_want_is_judged_again(f: FolderView, now: Timestamp, path: Seq<u8>)
    requires
        f.index.well_formed(),
        filed(f.quarantine),
        f.wants.wants.contains_key(path) ==> f.wants.wants[path].entry.path == path
            && f.wants.wants[path].received.path == path,
    ensures
        !f.wants.wants.contains_key(path) ==> f.reclassified(now, path) == f && f.redone(now, path)
            == f,
        f.wants.wants.contains_key(path) ==> {
            let old = f.wants.wants[path];
            let g = f.reclassified(now, path);
            let h = f.redone(now, path);
            &&& match classified(f.index, old.entry).item {
                None => g.wants.wants == f.wants.wants.remove(path) && g.quarantine
                    == f.quarantine && g.deferred == f.deferred,
                Some(x) => accounted(g, x, old.received) && (x.entry.version == old.entry.version
                    && g.wants.wants.contains_key(path) && g.wants.wants[path].entry.version
                    == old.entry.version && old.sources.finite() ==> old.sources.subset_of(
                    g.wants.wants[path].sources,
                )),
            }
            &&& match classified(f.index, old.received).item {
                None => h.wants.wants == f.wants.wants.remove(path) && h.quarantine
                    == f.quarantine && h.deferred == f.deferred,
                Some(x) => accounted(h, x, old.received),
            }
        },
{
    if f.wants.wants.contains_key(path) {
        let old = f.wants.wants[path];
        lemma_rederived(f, now, path, old, old.entry);
        lemma_rederived(f, now, path, old, old.received);
    }
}

/// What waited and is news now becomes a candidate, with the batch it came in; what is not is
/// dropped.
pub proof fn law_waiting_becomes_candidates(
    s: IndexView,
    list: Seq<DeferredView>,
    c: CandidateView,
)
    ensures
        candidates_of(s, list).contains(c) <==> exists|i: int|
            0 <= i < list.len() && classified(s, (#[trigger] list[i]).entry).item == Some(c.item)
                && c.raw == list[i].entry && c.batch == list[i].batch && c.source
                == list[i].source && c.seq_high == list[i].seq_high,
        candidates_of(s, list).len() == list.filter(
            |d: DeferredView| classified(s, d.entry).item is Some,
        ).len(),
    decreases list.len(),
{
    reveal(Seq::filter);
    if list.len() > 0 {
        let t = list.drop_last();
        let z = list.len() - 1;
        law_waiting_becomes_candidates(s, t, c);
        assert(list[z] == list.last());
        let a = candidates_of(s, t);
        let b = candidates_of(s, list);
        if b.contains(c) {
            let i = choose|i: int| 0 <= i < b.len() && b[i] == c;
            if i < a.len() {
                assert(a[i] == c);
                let j = choose|j: int|
                    0 <= j < t.len() && classified(s, (#[trigger] t[j]).entry).item == Some(c.item)
                        && c.raw == t[j].entry && c.batch == t[j].batch && c.source == t[j].source
                        && c.seq_high == t[j].seq_high;
                assert(list[j] == t[j]);
            }
        }
        if exists|i: int|
            0 <= i < list.len() && classified(s, (#[trigger] list[i]).entry).item == Some(c.item)
                && c.raw == list[i].entry && c.batch == list[i].batch && c.source
                == list[i].source && c.seq_high == list[i].seq_high {
            let i = choose|i: int|
                0 <= i < list.len() && classified(s, (#[trigger] list[i]).entry).item == Some(
                    c.item,
                ) && c.raw == list[i].entry && c.batch == list[i].batch && c.source
                    == list[i].source && c.seq_high == list[i].seq_high;
            if i < t.len() {
                assert(t[i] == list[i]);
                let j = choose|j: int| 0 <= j < a.len() && a[j] == c;
                assert(b[j] == c);
            } else {
                assert(b[b.len() - 1] == c);
            }
        }
    }
}

/// When what an entry waited for has come, it is accounted for, unless it is no news any more; and
/// what waits for something else goes on waiting.
pub proof fn law_waiting_is_accounted_for(
    f: FolderView,
    now: Timestamp,
    path: Seq<u8>,
    reason: DeferredReason,
    i: int,
)
    requires
        f.index.well_formed(),
        filed(f.quarantine),
        f.deferred.contains_key(path),
        f.deferred[path].len() <= u64::MAX,
        forall|j: int|
            0 <= j < f.deferred[path].len() ==> (#[trigger] f.deferred[path][j]).entry.path
                == path,
        ({
            let cs = candidates_of(f.index, taken(f.deferred[path], reason));
            &&& 0 <= i < cs.len()
            &&& forall|j: int|
                0 <= j < cs.len() && j != i ==> origin(#[trigger] cs[j]) != origin(cs[i])
        }),
    ensures
        ({
            let c = candidates_of(f.index, taken(f.deferred[path], reason))[i];
            accounted(f.reconsidered(now, path, reason), c.item, c.raw)
        }),
{
    reveal(FolderView::reconsidered);
    let list = f.deferred[path];
    let l = taken(list, reason);
    let cs = candidates_of(f.index, l);
    let rest = kept(list, reason);
    crate::laws::letting::law_waiting_by_reason(list, reason);
    let s = FolderView {
        deferred: if rest.len() > 0 {
            f.deferred.insert(path, rest)
        } else {
            f.deferred.remove(path)
        },
        ..f
    };
    assert forall|j: int| 0 <= j < cs.len() implies (#[trigger] cs[j]).raw.path
        == cs[j].item.entry.path by {
        assert(cs.contains(cs[j]));
        law_waiting_becomes_candidates(f.index, l, cs[j]);
        law_candidates_dominate(f.index, cs[j].raw);
    }
    law_waiting_becomes_candidates(f.index, l, cs[i]);
    l.lemma_filter_len(|d: DeferredView| classified(f.index, d.entry).item is Some);
    law_every_candidate_is_accounted_for(
        s.counting(crate::folder_view::fallbacks_of(s.index, l)),
        now,
        cs,
        true,
        i,
    );
}

// ---- approving --------------------------------------------------------------

/// Entries that come to something now, and what they come to.
spec fn comes_to(
    s: IndexView,
    l: Seq<(ItemView, EntryView)>,
    entries: Map<Seq<u8>, EntryView>,
    ks: Seq<Seq<u8>>,
) -> bool {
    forall|i: int|
        0 <= i < l.len() ==> ks.contains((#[trigger] l[i]).0.entry.path) && entries.contains_key(
            l[i].0.entry.path,
        ) && l[i].1 == entries[l[i].0.entry.path] && Some(l[i].0) == item_for(s, l[i].1)
}

#[verifier::opaque]
spec fn item_for(s: IndexView, e: EntryView) -> Option<ItemView> {
    classified(s, e).item
}

spec fn distinct_paths(l: Seq<(ItemView, EntryView)>) -> bool {
    forall|i: int, j: int|
        0 <= i < l.len() && 0 <= j < l.len() && i != j ==> (#[trigger] l[i]).0.entry.path != (
        #[trigger] l[j]).0.entry.path
}

spec fn complete(
    s: IndexView,
    l: Seq<(ItemView, EntryView)>,
    entries: Map<Seq<u8>, EntryView>,
    ks: Seq<Seq<u8>>,
) -> bool {
    forall|p: Seq<u8>|
        #![trigger ks.contains(p)]
        ks.contains(p) && item_for(s, entries[p]) is Some ==> l.contains(
            (item_for(s, entries[p])->0, entries[p]),
        )
}

proof fn lemma_released_step(
    s: IndexView,
    entries: Map<Seq<u8>, EntryView>,
    ks: Seq<Seq<u8>>,
    a: Seq<(ItemView, EntryView)>,
    l: Seq<(ItemView, EntryView)>,
)
    requires
        ks.len() > 0,
        increasing(ks),
        entries.contains_key(ks.last()),
        item_for(s, entries[ks.last()]) is Some ==> (item_for(
            s,
            entries[ks.last()],
        )->0).entry.path == ks.last(),
        a.len() <= ks.len() - 1,
        comes_to(s, a, entries, ks.drop_last()),
        distinct_paths(a),
        complete(s, a, entries, ks.drop_last()),
        l == match item_for(s, entries[ks.last()]) {
            Some(x) => a.push((x, entries[ks.last()])),
            None => a,
        },
    ensures
        l.len() <= ks.len(),
        comes_to(s, l, entries, ks),
        distinct_paths(l),
        complete(s, l, entries, ks),
{
    let t = ks.drop_last();
    let z = ks.len() - 1;
    let k = ks.last();
    assert(ks[z] == k);
    assert(!t.contains(k)) by {
        if t.contains(k) {
            let i = choose|i: int| 0 <= i < t.len() && t[i] == k;
            assert(ks[i].before(ks[z]));
            Ordered::irreflexive(k);
        }
    }
    assert forall|i: int| 0 <= i < l.len() implies ks.contains((#[trigger] l[i]).0.entry.path)
        && entries.contains_key(l[i].0.entry.path) && l[i].1 == entries[l[i].0.entry.path] && Some(
        l[i].0,
    ) == item_for(s, l[i].1) by {
        if i < a.len() {
            assert(l[i] == a[i]);
            let j = choose|j: int| 0 <= j < t.len() && t[j] == a[i].0.entry.path;
            assert(ks[j] == a[i].0.entry.path);
        }
    }
    assert forall|p: Seq<u8>|
        #![trigger ks.contains(p)]
        ks.contains(p) && item_for(s, entries[p]) is Some implies l.contains(
        (item_for(s, entries[p])->0, entries[p]),
    ) by {
        let x = (item_for(s, entries[p])->0, entries[p]);
        if p == k {
            assert(l[l.len() - 1] == x);
        } else {
            let i = choose|i: int| 0 <= i < ks.len() && ks[i] == p;
            assert(t[i] == p);
            assert(t.contains(p));
            let j = choose|j: int| 0 <= j < a.len() && a[j] == x;
            assert(l[j] == x);
        }
    }
    assert forall|i: int, j: int|
        0 <= i < l.len() && 0 <= j < l.len() && i != j implies (#[trigger] l[i]).0.entry.path != (
    #[trigger] l[j]).0.entry.path by {
        if i < a.len() && j < a.len() {
            assert(l[i] == a[i] && l[j] == a[j]);
        } else if i < a.len() {
            assert(l[i] == a[i]);
            assert(t.contains(a[i].0.entry.path));
        } else if j < a.len() {
            assert(l[j] == a[j]);
            assert(t.contains(a[j].0.entry.path));
        }
    }
}

proof fn lemma_released(s: IndexView, entries: Map<Seq<u8>, EntryView>, ks: Seq<Seq<u8>>)
    requires
        s.well_formed(),
        increasing(ks),
        forall|i: int|
            0 <= i < ks.len() ==> entries.contains_key(#[trigger] ks[i]) && entries[ks[i]].path
                == ks[i],
    ensures
        ({
            let l = released_among(s, entries, ks);
            &&& l.len() <= ks.len()
            &&& comes_to(s, l, entries, ks)
            &&& distinct_paths(l)
            &&& complete(s, l, entries, ks)
        }),
    decreases ks.len(),
{
    if ks.len() > 0 {
        let t = ks.drop_last();
        let z = ks.len() - 1;
        let k = ks.last();
        assert(ks[z] == k);
        assert forall|i: int| 0 <= i < t.len() implies entries.contains_key(#[trigger] t[i])
            && entries[t[i]].path == t[i] by {
            assert(t[i] == ks[i]);
        }
        lemma_released(s, entries, t);
        assert(entries.contains_key(ks[z]));
        law_candidates_dominate(s, entries[k]);
        let a = released_among(s, entries, t);
        let l = released_among(s, entries, ks);
        assert(item_for(s, entries[k]) == classified(s, entries[k]).item) by {
            reveal(item_for);
        }
        lemma_released_step(s, entries, ks, a, l);
    }
}

proof fn lemma_unbraked_items(f: FolderView, now: Timestamp, cs: Seq<CandidateView>)
    ensures
        f.let_in(now, cs, false).quarantine.items.dom() =~= f.quarantine.items.dom(),
{
    reveal(FolderView::let_in);
    let s0 = Sorting {
        wants: f.wants,
        quarantine: f.quarantine,
        groups: Map::empty(),
        joined: Map::empty(),
    };
    lemma_sort_items(s0, cs, false);
    let t = f.sorted_out(cs, false);
    let g = FolderView {
        wants: t.wants,
        quarantine: t.quarantine,
        statuses: f.statuses + joined_statuses(t.joined, in_order(t.joined.dom())),
        ..f
    };
    lemma_unbraked_groups(g, now, t.groups, in_order(t.groups.dom()));
}

proof fn lemma_sort_items(s: Sorting, cs: Seq<CandidateView>, brake: bool)
    ensures
        s.sort_all(cs, brake).quarantine.items.dom() =~= s.quarantine.items.dom(),
    decreases cs.len(),
{
    if cs.len() > 0 {
        lemma_sort_items(s, cs.drop_last(), brake);
    }
}

proof fn lemma_unbraked_groups(
    f: FolderView,
    now: Timestamp,
    groups: Groups,
    ks: Seq<((BatchId, NodeId), u64)>,
)
    ensures
        f.admit_groups(now, groups, ks, false).quarantine == f.quarantine,
    decreases ks.len(),
{
    if ks.len() > 0 {
        lemma_unbraked_groups(f, now, groups, ks.drop_last());
        reveal(FolderView::admit_group);
        let g = f.admit_groups(now, groups, ks.drop_last(), false);
        let k = ks.last();
        lemma_wanting_quarantine(g, by_path(groups[k]), k.0.0, k.0.1, k.1);
    }
}

proof fn lemma_wanting_quarantine(
    f: FolderView,
    pairs: Seq<(ItemView, EntryView)>,
    batch: BatchId,
    source: NodeId,
    seq_high: u64,
)
    ensures
        f.wanting_all(pairs, batch, source, seq_high).quarantine == f.quarantine,
    decreases pairs.len(),
{
    if pairs.len() > 0 {
        lemma_wanting_quarantine(f, pairs.drop_last(), batch, source, seq_high);
    }
}

/// Approving a held item releases it: it is held no more, and no other item comes to be held by
/// that; every entry of it that is still news is accounted for, without meeting the brake again;
/// and the number of those is reported.
pub proof fn law_approval_releases(f: FolderView, now: Timestamp, batch: BatchId, p: Seq<u8>)
    requires
        f.index.well_formed(),
        filed(f.quarantine),
        f.quarantine.items.contains_key(batch),
        f.quarantine.items[batch].entries.dom().len() <= u64::MAX,
    ensures
        ({
            let w = f.approve(now, batch);
            let item = f.quarantine.items[batch];
            &&& w.approved is Released
            &&& w.folder.quarantine.items.dom() =~= f.quarantine.items.dom().remove(batch)
            &&& item.entries.contains_key(p) && classified(f.index, item.entries[p]).item is Some
                ==> accounted(
                w.folder,
                classified(f.index, item.entries[p]).item->0,
                item.entries[p],
            )
            &&& match w.approved->Released_0 {
                None => forall|q: Seq<u8>| #[trigger]
                    item.entries.contains_key(q) ==> classified(f.index, item.entries[q]).item
                        is None,
                Some(set) => {
                    &&& set.folder == f.id
                    &&& set.batch == batch
                    &&& set.source == item.source
                    &&& set.seq_high == item.seq_high
                    &&& item.entries.contains_key(p) && classified(
                        f.index,
                        item.entries[p],
                    ).item is Some ==> set.items.contains(
                        classified(f.index, item.entries[p]).item->0,
                    )
                    &&& forall|i: int|
                        0 <= i < set.items.len() ==> {
                            let q = (#[trigger] set.items[i]).entry.path;
                            item.entries.contains_key(q) && classified(
                                f.index,
                                item.entries[q],
                            ).item == Some(set.items[i])
                        }
                },
            }
        }),
{
    let item = f.quarantine.items[batch];
    let ks = in_order(item.entries.dom());
    lemma_order_facts(item.entries.dom());
    assert forall|i: int| 0 <= i < ks.len() implies item.entries.contains_key(#[trigger] ks[i])
        && item.entries[ks[i]].path == ks[i] by {
        assert(item.entries.dom().contains(ks[i]));
    }
    reveal(item_for);
    lemma_released(f.index, item.entries, ks);
    let l = released_among(f.index, item.entries, ks);
    law_path_order(l);
    let pairs = by_path(l);
    let s = FolderView { quarantine: f.quarantine.released(batch), ..f }.counting(
        crate::batch::fallbacks_among(f.index, item.entries, ks),
    );
    crate::laws::filing::law_release_filed(f.quarantine, batch);
    let cs = as_candidates(pairs, item.batch, item.source, item.seq_high);
    lemma_unbraked_items(s, now, cs);
    assert forall|q: Seq<u8>| #[trigger] item.entries.contains_key(q) implies ks.contains(q) by {
        assert(item.entries.dom().contains(q));
    }
    let x = (classified(f.index, item.entries[p]).item->0, item.entries[p]);
    let news = item.entries.contains_key(p) && classified(f.index, item.entries[p]).item is Some;
    assert forall|i: int| 0 <= i < pairs.len() implies item.entries.contains_key(
        (#[trigger] pairs[i]).0.entry.path,
    ) && pairs[i].1 == item.entries[pairs[i].0.entry.path] && classified(
        f.index,
        pairs[i].1,
    ).item == Some(pairs[i].0) by {
        assert(pairs.contains(pairs[i]));
        let j = choose|j: int| 0 <= j < l.len() && l[j] == pairs[i];
        assert(item.entries.contains_key(l[j].0.entry.path));
    }
    if news {
        assert(l.contains(x));
        assert(pairs.contains(x));
        let i = choose|i: int| 0 <= i < pairs.len() && pairs[i] == x;
        assert(items_of(pairs)[i] == x.0);
        law_candidates_dominate(f.index, item.entries[p]);
        lemma_paths_distinct(l);
        assert forall|j: int| 0 <= j < cs.len() implies (#[trigger] cs[j]).raw.path
            == cs[j].item.entry.path by {
            assert(item.entries.contains_key(pairs[j].0.entry.path));
        }
        assert forall|j: int| 0 <= j < cs.len() && j != i implies (
        #[trigger] cs[j]).item.entry.path != cs[i].item.entry.path by {
            assert(pairs[j].0.entry.path != pairs[i].0.entry.path);
        }
        law_every_candidate_is_accounted_for(s, now, cs, false, i);
    }
    if pairs.len() == 0 {
        assert forall|q: Seq<u8>| #[trigger] item.entries.contains_key(q) implies classified(
            f.index,
            item.entries[q],
        ).item is None by {
            if classified(f.index, item.entries[q]).item is Some {
                let y = (classified(f.index, item.entries[q]).item->0, item.entries[q]);
                assert(ks.contains(q));
                assert(l.contains(y));
                assert(pairs.contains(y));
            }
        }
    } else {
        assert forall|i: int| 0 <= i < items_of(pairs).len() implies ({
            let q = (#[trigger] items_of(pairs)[i]).entry.path;
            item.entries.contains_key(q) && classified(f.index, item.entries[q]).item == Some(
                items_of(pairs)[i],
            )
        }) by {
            assert(item.entries.contains_key(pairs[i].0.entry.path));
        }
    }
}

/// A list without two items at one path has none in path order.
proof fn lemma_paths_distinct(l: Seq<(ItemView, EntryView)>)
    requires
        l.len() <= u64::MAX,
        forall|i: int, j: int|
            0 <= i < l.len() && 0 <= j < l.len() && i != j ==> (#[trigger] l[i]).0.entry.path != (
            #[trigger] l[j]).0.entry.path,
    ensures
        forall|i: int, j: int|
            0 <= i < l.len() && 0 <= j < l.len() && i != j ==> (#[trigger] by_path(
                l,
            )[i]).0.entry.path != (#[trigger] by_path(l)[j]).0.entry.path,
{
    law_path_order(l);
    let keys = crate::folder_view::path_keys(l);
    let b = by_path(l);
    let n = l.len() as int;
    let f = |i: int| (l[i].0.entry.path, i as u64);
    vstd::set_lib::lemma_int_range(0, n);
    let m = vstd::set_lib::set_int_range(0, n).map(f);
    vstd::set_lib::set_int_range(0, n).lemma_map_finite(f);
    assert forall|k: (Seq<u8>, u64)| #[trigger] keys.contains(k) implies m.contains(k) by {
        assert(vstd::set_lib::set_int_range(0, n).contains(k.1 as int));
        assert(f(k.1 as int) == k);
    }
    vstd::set_lib::lemma_set_subset_finite(m, keys);
    lemma_order_facts(keys);
    let ks = in_order(keys);
    assert forall|i: int, j: int| 0 <= i < n && 0 <= j < n && i != j implies (
    #[trigger] b[i]).0.entry.path != (#[trigger] b[j]).0.entry.path by {
        assert(keys.contains(ks[i]));
        assert(keys.contains(ks[j]));
        assert(ks[i] != ks[j]);
        if b[i].0.entry.path == b[j].0.entry.path {
            assert(ks[i].0 == ks[j].0);
            assert(ks[i].1 != ks[j].1);
            assert(l[ks[i].1 as int].0.entry.path != l[ks[j].1 as int].0.entry.path);
        }
    }
}

// ---- what a decision clears up ----------------------------------------------

/// Whether one state of a folder came from another by letting things in: what is denied stays, no
/// held item is gone, and nothing waits for the folder to unpause that did not before.
spec fn let_things_in(f: FolderView, g: FolderView) -> bool {
    &&& g.quarantine.denied == f.quarantine.denied
    &&& f.quarantine.items.dom().subset_of(g.quarantine.items.dom())
    &&& unfrozen_waiting(f) ==> unfrozen_waiting(g)
}

/// Whether nothing waits for the folder to unpause.
pub open spec fn unfrozen_waiting(f: FolderView) -> bool {
    forall|p: Seq<u8>, i: int|
        0 <= i < f.waiting(p).len() ==> (#[trigger] f.waiting(p)[i]).reason
            != DeferredReason::Frozen
}

proof fn lemma_same_waiting(f: FolderView, g: FolderView)
    requires
        g.deferred == f.deferred,
        unfrozen_waiting(f),
    ensures
        unfrozen_waiting(g),
{
    assert forall|p: Seq<u8>, i: int| 0 <= i < g.waiting(p).len() implies (
    #[trigger] g.waiting(p)[i]).reason != DeferredReason::Frozen by {
        assert(f.waiting(p)[i] == g.waiting(p)[i]);
    }
}

proof fn lemma_held_keeps(q: QuarantineView, item: HeldItemView)
    ensures
        q.held(item).denied == q.denied,
        q.items.dom().subset_of(q.held(item).items.dom()),
        q.held(item).items.contains_key(item.batch),
{
    let ks = in_order(item.entries.dom());
    lemma_joined_all_keeps(q, item.entries, ks, item.batch);
    lemma_recorded_all_keeps(q, item.entries, ks, item.batch);
}

proof fn lemma_joined_all_keeps(
    q: QuarantineView,
    entries: Map<Seq<u8>, EntryView>,
    ks: Seq<Seq<u8>>,
    batch: BatchId,
)
    ensures
        q.joined_all(entries, ks, batch).denied == q.denied,
        q.joined_all(entries, ks, batch).items.dom() =~= q.items.dom(),
    decreases ks.len(),
{
    if ks.len() > 0 {
        lemma_joined_all_keeps(q, entries, ks.drop_last(), batch);
    }
}

proof fn lemma_recorded_all_keeps(
    q: QuarantineView,
    entries: Map<Seq<u8>, EntryView>,
    ks: Seq<Seq<u8>>,
    batch: BatchId,
)
    ensures
        q.recorded_all(entries, ks, batch).denied == q.denied,
        q.recorded_all(entries, ks, batch).items == q.items,
    decreases ks.len(),
{
    if ks.len() > 0 {
        lemma_recorded_all_keeps(q, entries, ks.drop_last(), batch);
    }
}

proof fn lemma_wanting_lets(
    f: FolderView,
    pairs: Seq<(ItemView, EntryView)>,
    batch: BatchId,
    source: NodeId,
    seq_high: u64,
)
    ensures
        let_things_in(f, f.wanting_all(pairs, batch, source, seq_high)),
    decreases pairs.len(),
{
    if pairs.len() > 0 {
        lemma_wanting_lets(f, pairs.drop_last(), batch, source, seq_high);
        let m = f.wanting_all(pairs.drop_last(), batch, source, seq_high);
        let g = f.wanting_all(pairs, batch, source, seq_high);
        if unfrozen_waiting(m) {
            assert forall|p: Seq<u8>, i: int| 0 <= i < g.waiting(p).len() implies (
            #[trigger] g.waiting(p)[i]).reason != DeferredReason::Frozen by {
                if i < m.waiting(p).len() {
                    assert(m.waiting(p)[i] == g.waiting(p)[i]);
                }
            }
        }
    }
}

proof fn lemma_groups_let(
    f: FolderView,
    now: Timestamp,
    groups: Groups,
    ks: Seq<((BatchId, NodeId), u64)>,
    brake: bool,
)
    ensures
        let_things_in(f, f.admit_groups(now, groups, ks, brake)),
    decreases ks.len(),
{
    if ks.len() > 0 {
        lemma_groups_let(f, now, groups, ks.drop_last(), brake);
        reveal(FolderView::admit_group);
        let m = f.admit_groups(now, groups, ks.drop_last(), brake);
        let g = f.admit_groups(now, groups, ks, brake);
        let k = ks.last();
        let pairs = by_path(groups[k]);
        let raws = crate::folder_view::raws_of(pairs);
        lemma_wanting_lets(m, pairs, k.0.0, k.0.1, k.1);
        lemma_joined_all_keeps(m.quarantine, raws, in_order(raws.dom()), k.0.0);
        let v = if brake {
            verdict(
                m.rules,
                weight(m.index, items_of(pairs)),
                m.index.tracked_count() as usize,
            )
        } else {
            Verdict::Pass
        };
        match v {
            Verdict::Hold(reason) => {
                lemma_held_keeps(
                    m.quarantine,
                    HeldItemView {
                        batch: k.0.0,
                        source: k.0.1,
                        seq_high: k.1,
                        held_at: now,
                        reason,
                        entries: raws,
                    },
                );
                if unfrozen_waiting(m) {
                    lemma_same_waiting(m, g);
                }
            },
            Verdict::Pass => {},
        }
    }
}

proof fn lemma_sort_denied(s: Sorting, cs: Seq<CandidateView>, brake: bool)
    ensures
        s.sort_all(cs, brake).quarantine.denied == s.quarantine.denied,
    decreases cs.len(),
{
    if cs.len() > 0 {
        lemma_sort_denied(s, cs.drop_last(), brake);
    }
}

proof fn lemma_let_in_lets(f: FolderView, now: Timestamp, cs: Seq<CandidateView>, brake: bool)
    ensures
        let_things_in(f, f.let_in(now, cs, brake)),
{
    reveal(FolderView::let_in);
    let s0 = Sorting {
        wants: f.wants,
        quarantine: f.quarantine,
        groups: Map::empty(),
        joined: Map::empty(),
    };
    lemma_sort_items(s0, cs, brake);
    lemma_sort_denied(s0, cs, brake);
    let t = f.sorted_out(cs, brake);
    let g = FolderView {
        wants: t.wants,
        quarantine: t.quarantine,
        statuses: f.statuses + joined_statuses(t.joined, in_order(t.joined.dom())),
        ..f
    };
    if unfrozen_waiting(f) {
        lemma_same_waiting(f, g);
    }
    lemma_groups_let(g, now, t.groups, in_order(t.groups.dom()), brake);
}

proof fn lemma_unfrozen_lets(f: FolderView, now: Timestamp)
    ensures
        f.unfrozen(now).quarantine.denied == f.quarantine.denied,
        f.quarantine.items.dom().subset_of(f.unfrozen(now).quarantine.items.dom()),
        unfrozen_waiting(f.unfrozen(now)),
{
    reveal(FolderView::unfrozen);
    let s = FolderView { deferred: crate::folder_view::thawed(f.deferred), ..f };
    let l = crate::folder_view::frozen_among(f.deferred, in_order(f.deferred.dom()));
    let c = s.counting(crate::folder_view::fallbacks_of(s.index, l));
    assert forall|p: Seq<u8>, i: int| 0 <= i < c.waiting(p).len() implies (
    #[trigger] c.waiting(p)[i]).reason != DeferredReason::Frozen by {
        let k = kept(f.deferred[p], DeferredReason::Frozen);
        crate::laws::letting::law_waiting_by_reason(f.deferred[p], DeferredReason::Frozen);
        f.deferred[p].lemma_filter_pred(
            |d: DeferredView| d.reason != DeferredReason::Frozen,
            i,
        );
        assert(c.waiting(p)[i] == k[i]);
    }
    lemma_let_in_lets(c, now, candidates_of(s.index, l), true);
}

proof fn lemma_resettled_lets(
    f: FolderView,
    now: Timestamp,
    batch: BatchId,
    rs: Seq<RevertedView>,
)
    ensures
        f.resettled(now, batch, rs).quarantine.denied == f.quarantine.denied,
        f.quarantine.items.dom().subset_of(
            f.resettled(now, batch, rs).quarantine.items.dom(),
        ),
    decreases rs.len(),
{
    if rs.len() > 0 {
        lemma_resettled_lets(f, now, batch, rs.drop_last());
        let m = f.resettled(now, batch, rs.drop_last());
        let path = rs.last().path;
        if m.wants.wants.contains_key(path) {
            reveal(FolderView::rederived);
            let old = m.wants.wants[path];
            let c = classified(m.index, old.received);
            let s = FolderView { wants: m.wants.removed(path), ..m }.counting(
                if c.fallback {
                    1
                } else {
                    0
                },
            );
            if c.item is Some {
                let x = c.item->0;
                let cs = seq![
                    CandidateView {
                        item: x,
                        raw: old.received,
                        batch: old.batch,
                        source: old.source,
                        seq_high: old.seq_high,
                    },
                ];
                lemma_let_in_lets(s, now, cs, true);
                lemma_naming(
                    s.let_in(now, cs, true),
                    path,
                    old.entry.version,
                    in_order(old.sources),
                    x,
                    old.received,
                );
            }
        }
    }
}

proof fn lemma_returned_keeps(
    q: QuarantineView,
    denied: Map<u64, crate::quarantine::HeldRowView>,
    ks: Seq<u64>,
    at: u64,
)
    ensures
        q.returned(denied, ks).denied == q.denied,
        q.items.dom().subset_of(q.returned(denied, ks).items.dom()),
        ks.contains(at) ==> q.returned(denied, ks).items.contains_key(denied[at].item.batch),
    decreases ks.len(),
{
    if ks.len() > 0 {
        let t = ks.drop_last();
        lemma_returned_keeps(q, denied, t, at);
        let row = denied[ks.last()];
        let m = q.returned(denied, t).noted(
            row.item.batch,
            crate::quarantine::HeldState::Denied { at: ks.last() },
        );
        lemma_rows_keep(m, row.versions, in_order(row.versions.dom()), row.item.batch);
        lemma_held_keeps(
            m.recorded_rows(row.versions, in_order(row.versions.dom()), row.item.batch),
            row.item,
        );
        if ks.contains(at) {
            let i = choose|i: int| 0 <= i < ks.len() && ks[i] == at;
            if i < t.len() {
                assert(t[i] == at);
            }
        }
    }
}

proof fn lemma_rows_keep(
    q: QuarantineView,
    versions: Map<Seq<u8>, Seq<crate::quarantine::QuarantinedView>>,
    ks: Seq<Seq<u8>>,
    batch: BatchId,
)
    ensures
        q.recorded_rows(versions, ks, batch).denied == q.denied,
        q.recorded_rows(versions, ks, batch).items == q.items,
    decreases ks.len(),
{
    if ks.len() > 0 {
        lemma_rows_keep(q, versions, ks.drop_last(), batch);
        lemma_again_keeps(
            q.recorded_rows(versions, ks.drop_last(), batch),
            ks.last(),
            versions[ks.last()],
            batch,
        );
    }
}

proof fn lemma_again_keeps(
    q: QuarantineView,
    path: Seq<u8>,
    list: Seq<crate::quarantine::QuarantinedView>,
    batch: BatchId,
)
    ensures
        q.recorded_again(path, list, batch).denied == q.denied,
        q.recorded_again(path, list, batch).items == q.items,
    decreases list.len(),
{
    if list.len() > 0 {
        lemma_again_keeps(q, path, list.drop_last(), batch);
    }
}

/// A decision on a paused folder clears up: nothing waits for it any more, and no denial can be
/// undone any more. If it was to revert, every item that was denied in the meantime is held again,
/// and no item that is held is gone; if it was to send, the denials stand.
pub proof fn law_decisions_clear_up(f: FolderView, now: Timestamp, batch: BatchId, at: u64)
    requires
        f.paused is Some,
        f.quarantine.denied.dom().finite(),
    ensures
        ({
            let g = f.reverted(now);
            &&& unfrozen_waiting(g)
            &&& g.quarantine.denied.dom() =~= Set::empty()
            &&& f.quarantine.denied.contains_key(at) ==> g.quarantine.items.contains_key(
                f.quarantine.denied[at].item.batch,
            )
            &&& f.quarantine.items.dom().subset_of(g.quarantine.items.dom())
        }),
        (f.paused->0).batch == batch && !f.quarantine.items.contains_key(batch) ==> {
            let g = f.approve(now, batch).folder;
            &&& unfrozen_waiting(g)
            &&& g.quarantine.denied.dom() =~= Set::empty()
            &&& f.quarantine.items.dom().subset_of(g.quarantine.items.dom())
        },
{
    let rs = f.index.reverted_list();
    let q = QuarantineView { denied: Map::empty(), ..f.quarantine };
    let ks = in_order(f.quarantine.denied.dom());
    lemma_order_facts(f.quarantine.denied.dom());
    lemma_returned_keeps(q, f.quarantine.denied, ks, at);
    if f.quarantine.denied.contains_key(at) {
        assert(f.quarantine.denied.dom().contains(at));
    }
    let a = FolderView {
        paused: None,
        index: f.index.reverted(),
        quarantine: f.quarantine.all_returned(),
        ..f
    };
    lemma_resettled_lets(a, now, (f.paused->0).batch, rs);
    lemma_unfrozen_lets(
        FolderView { window: None, ..a.resettled(now, (f.paused->0).batch, rs) },
        now,
    );
    lemma_unfrozen_lets(FolderView { paused: None, ..f.announced() }, now);
}

} // verus!
