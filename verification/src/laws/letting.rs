//! What is let in, from a batch that was released or from what waited, is accounted for.

use crate::batch::ItemView;
use crate::brake::{verdict, weight, Verdict};
use crate::entry::EntryView;
use crate::folder::DeferredReason;
use crate::folder_view::{
    by_path, items_of, joined_statuses, kept, path_keys, raws_of, taken, CandidateView,
    DeferredView, FolderView, Groups, Sorting,
};
use crate::id::{BatchId, NodeId};
use crate::laws::accounting::{
    accounted, law_holding_quarantines, law_joining_quarantines, law_passed_items_are_accounted_for,
    quarantined, waits, wanted_or_more,
};
use crate::laws::filing::{filed, law_join_filed, law_matches_exist};
use crate::laws::receiving::{law_candidate_is_sorted, law_first_match_exactly};
use crate::laws::sourcing::law_announcement_names_a_source;
use crate::order::{in_order, lemma_order_facts, Ordered};
use crate::quarantine::{first_match, HeldItemView};
use crate::time::Timestamp;
use vstd::prelude::*;
use vstd::set_lib::set_int_range;

verus! {

// ---- lists ------------------------------------------------------------------

/// A list in path order is the same list in path order: nothing is lost, nothing is added, and
/// paths do not go down.
pub proof fn law_path_order(pairs: Seq<(ItemView, EntryView)>)
    requires
        pairs.len() <= u64::MAX,
    ensures
        by_path(pairs).len() == pairs.len(),
        forall|x: (ItemView, EntryView)| #[trigger] by_path(pairs).contains(x) <==> pairs.contains(x),
        forall|i: int, j: int|
            0 <= i < j < pairs.len() ==> (#[trigger] by_path(pairs)[i]).0.entry.path == (
            #[trigger] by_path(pairs)[j]).0.entry.path || by_path(
                pairs,
            )[i].0.entry.path.before(by_path(pairs)[j].0.entry.path),
{
    let keys = path_keys(pairs);
    let n = pairs.len() as int;
    let f = |i: int| (pairs[i].0.entry.path, i as u64);
    vstd::set_lib::lemma_int_range(0, n);
    let m = set_int_range(0, n).map(f);
    assert forall|k: (Seq<u8>, u64)| #[trigger] keys.contains(k) implies m.contains(k) by {
        assert(set_int_range(0, n).contains(k.1 as int));
        assert(f(k.1 as int) == k);
    }
    assert forall|k: (Seq<u8>, u64)| #[trigger] m.contains(k) implies keys.contains(k) by {
        let i = choose|i: int| set_int_range(0, n).contains(i) && f(i) == k;
        assert(k.1 as int == i);
    }
    assert(m =~= keys);
    set_int_range(0, n).lemma_map_finite(f);
    assert(vstd::relations::injective_on(f, set_int_range(0, n))) by {
        assert forall|a: int, b: int|
            #![trigger f(a), f(b)]
            set_int_range(0, n).contains(a) && set_int_range(0, n).contains(b) && f(a) == f(
                b,
            ) implies a == b by {
            assert(a as u64 == b as u64);
        }
    }
    vstd::set_lib::lemma_map_size(set_int_range(0, n), keys, f);
    lemma_order_facts(keys);
    let ks = in_order(keys);
    let b = by_path(pairs);
    assert forall|x: (ItemView, EntryView)| #[trigger] b.contains(x) <==> pairs.contains(x) by {
        if b.contains(x) {
            let i = choose|i: int| 0 <= i < b.len() && b[i] == x;
            assert(keys.contains(ks[i]));
            assert(pairs[ks[i].1 as int] == x);
        }
        if pairs.contains(x) {
            let i = choose|i: int| 0 <= i < pairs.len() && pairs[i] == x;
            let k = (pairs[i].0.entry.path, i as u64);
            assert(keys.contains(k));
            let j = choose|j: int| 0 <= j < ks.len() && ks[j] == k;
            assert(b[j] == x);
        }
    }
    assert forall|i: int, j: int| 0 <= i < j < pairs.len() implies (
    #[trigger] b[i]).0.entry.path == (#[trigger] b[j]).0.entry.path || b[i].0.entry.path.before(
        b[j].0.entry.path,
    ) by {
        assert(ks[i].before(ks[j]));
        assert(keys.contains(ks[i]));
        assert(keys.contains(ks[j]));
    }
}

/// What waits for a reason is looked at when the reason is gone; the rest goes on waiting, in the
/// same order.
pub proof fn law_waiting_by_reason(list: Seq<DeferredView>, reason: DeferredReason)
    ensures
        taken(list, reason) == list.filter(|d: DeferredView| d.reason == reason),
        kept(list, reason) == list.filter(|d: DeferredView| d.reason != reason),
        taken(list, reason).len() + kept(list, reason).len() == list.len(),
    decreases list.len(),
{
    reveal(Seq::filter);
    if list.len() > 0 {
        law_waiting_by_reason(list.drop_last(), reason);
    }
}

/// What is held of a group is, at each of its paths, what was received for an item there.
pub proof fn law_group_as_received(pairs: Seq<(ItemView, EntryView)>, p: Seq<u8>)
    ensures
        raws_of(pairs).dom().finite(),
        raws_of(pairs).contains_key(p) <==> exists|i: int|
            0 <= i < pairs.len() && (#[trigger] pairs[i]).0.entry.path == p,
        raws_of(pairs).contains_key(p) ==> exists|i: int|
            0 <= i < pairs.len() && (#[trigger] pairs[i]).0.entry.path == p && raws_of(pairs)[p]
                == pairs[i].1,
    decreases pairs.len(),
{
    if pairs.len() > 0 {
        let t = pairs.drop_last();
        let z = pairs.len() - 1;
        law_group_as_received(t, p);
        assert(pairs[z] == pairs.last());
        if pairs.last().0.entry.path != p {
            if raws_of(t).contains_key(p) {
                let i = choose|i: int|
                    0 <= i < t.len() && (#[trigger] t[i]).0.entry.path == p && raws_of(t)[p]
                        == t[i].1;
                assert(pairs[i] == t[i]);
            } else if exists|i: int|
                0 <= i < pairs.len() && (#[trigger] pairs[i]).0.entry.path == p {
                let i = choose|i: int|
                    0 <= i < pairs.len() && (#[trigger] pairs[i]).0.entry.path == p;
                assert(t[i].0.entry.path == p);
            }
        }
    }
}

// ---- sorting ----------------------------------------------------------------

/// The batch that a candidate came in.
pub open spec fn origin(c: CandidateView) -> ((BatchId, NodeId), u64) {
    ((c.batch, c.source), c.seq_high)
}

/// Whether a candidate stands among those that go on to the brake.
spec fn grouped(g: Groups, c: CandidateView) -> bool {
    g.contains_key(origin(c)) && g[origin(c)].contains((c.item, c.raw))
}

spec fn sorted_away(s: Sorting, c: CandidateView) -> bool {
    ||| wanted_or_more(s.wants, c.item.entry.path, c.item.entry.version)
    ||| quarantined(s.quarantine, c.raw.path, c.raw.version)
    ||| grouped(s.groups, c)
}

/// Whether a pair is one of some candidates, of one batch.
spec fn comes_from(
    cs: Seq<CandidateView>,
    k: ((BatchId, NodeId), u64),
    x: (ItemView, EntryView),
) -> bool {
    exists|j: int|
        0 <= j < cs.len() && origin(#[trigger] cs[j]) == k && x == (cs[j].item, cs[j].raw)
}

/// Whether everything in the groups is one of some candidates.
spec fn all_among(g: Groups, cs: Seq<CandidateView>) -> bool {
    &&& g.dom().finite()
    &&& forall|k: ((BatchId, NodeId), u64)| #[trigger] g.contains_key(k) ==> g[k].len() <= cs.len()
    &&& forall|k: ((BatchId, NodeId), u64), i: int|
        g.contains_key(k) && 0 <= i < g[k].len() ==> comes_from(cs, k, #[trigger] g[k][i])
}

proof fn lemma_all_among_step(a: Groups, b: Groups, cs: Seq<CandidateView>)
    requires
        cs.len() > 0,
        all_among(a, cs.drop_last()),
        b == a || b == a.insert(
            origin(cs.last()),
            (if a.contains_key(origin(cs.last())) {
                a[origin(cs.last())]
            } else {
                Seq::empty()
            }).push((cs.last().item, cs.last().raw)),
        ),
    ensures
        all_among(b, cs),
{
    let t = cs.drop_last();
    let z = cs.len() - 1;
    let o = origin(cs.last());
    assert(cs[z] == cs.last());
    assert forall|k: ((BatchId, NodeId), u64), i: int|
        b.contains_key(k) && 0 <= i < b[k].len() implies comes_from(cs, k, #[trigger] b[k][i]) by {
        if b != a && k == o && i == b[k].len() - 1 {
            assert(origin(cs[z]) == k);
            assert(b[k][i] == (cs[z].item, cs[z].raw));
        } else {
            assert(a.contains_key(k));
            assert(a[k][i] == b[k][i]);
            assert(comes_from(t, k, a[k][i]));
            let j = choose|j: int|
                0 <= j < t.len() && origin(#[trigger] t[j]) == k && a[k][i] == (
                t[j].item,
                t[j].raw,
            );
            assert(cs[j] == t[j]);
        }
    }
}

proof fn lemma_sort_all(s: Sorting, cs: Seq<CandidateView>, brake: bool, i: int)
    requires
        filed(s.quarantine),
        s.groups == Map::<((BatchId, NodeId), u64), Seq<(ItemView, EntryView)>>::empty(),
        forall|j: int|
            0 <= j < cs.len() ==> (#[trigger] cs[j]).raw.path == cs[j].item.entry.path,
    ensures
        ({
            let t = s.sort_all(cs, brake);
            &&& filed(t.quarantine)
            &&& all_among(t.groups, cs)
            &&& 0 <= i < cs.len() ==> sorted_away(t, cs[i])
        }),
    decreases cs.len(),
{
    if cs.len() > 0 {
        let u = cs.drop_last();
        let z = cs.len() - 1;
        let c = cs.last();
        assert(cs[z] == c);
        assert forall|j: int| 0 <= j < u.len() implies (#[trigger] u[j]).raw.path
            == u[j].item.entry.path by {
            assert(u[j] == cs[j]);
        }
        lemma_sort_all(s, u, brake, i);
        let m = s.sort_all(u, brake);
        let t = s.sort_all(cs, brake);
        law_candidate_is_sorted(m, c, brake);
        let list = m.quarantine.list(c.raw.path);
        law_matches_exist(m.quarantine, c.raw.path, c.raw.version);
        law_first_match_exactly(list, c.raw.version);
        let x = cs[i];
        let into = if first_match(list, c.raw.version) is Some {
            first_match(list, c.raw.version)->0
        } else {
            c.batch
        };
        law_join_filed(m.quarantine, into, c.raw);
        law_joining_quarantines(m.quarantine, into, c.raw, x.raw.path, x.raw.version);
        law_joining_quarantines(m.quarantine, into, c.raw, c.raw.path, c.raw.version);
        law_announcement_names_a_source(
            m.wants,
            c.item.entry.path,
            c.item.entry.version,
            c.source,
            x.item.entry.path,
        );
        law_announcement_names_a_source(
            m.wants,
            c.item.entry.path,
            c.item.entry.version,
            c.source,
            c.item.entry.path,
        );
        lemma_all_among_step(m.groups, t.groups, cs);
        if 0 <= i < cs.len() {
            if i < z {
                assert(u[i] == x);
                assert(sorted_away(m, x));
                if grouped(m.groups, x) {
                    let o = origin(x);
                    let j = choose|j: int|
                        0 <= j < m.groups[o].len() && m.groups[o][j] == (x.item, x.raw);
                    assert(t.groups[o][j] == (x.item, x.raw));
                }
            } else if t.groups != m.groups {
                let o = origin(c);
                let j = t.groups[o].len() - 1;
                assert(t.groups[o][j] == (c.item, c.raw));
            }
        }
    }
}

// ---- one batch after another ------------------------------------------------

proof fn lemma_same_waits(f: FolderView, g: FolderView, p: Seq<u8>, e: EntryView)
    requires
        f.deferred == g.deferred,
        waits(f, p, e),
    ensures
        waits(g, p, e),
{
    let i = choose|i: int| 0 <= i < f.waiting(p).len() && (#[trigger] f.waiting(p)[i]).entry == e;
    assert(g.waiting(p)[i].entry == e);
}

proof fn lemma_group(
    f: FolderView,
    now: Timestamp,
    k: ((BatchId, NodeId), u64),
    group: Seq<(ItemView, EntryView)>,
    brake: bool,
    x: ItemView,
    r: EntryView,
)
    requires
        group.len() <= u64::MAX,
        r.path == x.entry.path,
    ensures
        accounted(f, x, r) || (group.contains((x, r)) && alone(group, x, r)) ==> accounted(
            f.admit_group(now, k, group, brake),
            x,
            r,
        ),
{
    reveal(FolderView::admit_group);
    let pairs = by_path(group);
    law_path_order(group);
    let p = x.entry.path;
    let g = f.admit_group(now, k, group, brake);
    let raws = raws_of(pairs);
    law_group_as_received(pairs, p);
    law_passed_items_are_accounted_for(f, pairs, k.0.0, k.0.1, k.1, x, r);
    let summary = weight(f.index, items_of(pairs));
    let v = if brake {
        verdict(f.rules, summary, f.index.tracked_count() as usize)
    } else {
        Verdict::Pass
    };
    match v {
        Verdict::Hold(reason) => {
            let item = HeldItemView {
                batch: k.0.0,
                source: k.0.1,
                seq_high: k.1,
                held_at: now,
                reason,
                entries: raws,
            };
            law_holding_quarantines(f.quarantine, item, p, r.version);
            if group.contains((x, r)) && alone(group, x, r) {
                assert(pairs.contains((x, r)));
                let i = choose|i: int| 0 <= i < pairs.len() && pairs[i] == (x, r);
                assert(pairs[i].0.entry.path == p);
                let j = choose|j: int|
                    0 <= j < pairs.len() && (#[trigger] pairs[j]).0.entry.path == p && raws[p]
                        == pairs[j].1;
                assert(pairs.contains(pairs[j]));
                assert(group.contains(pairs[j]));
                let l = choose|l: int| 0 <= l < group.len() && group[l] == pairs[j];
                assert(group[l].0.entry.path == p);
                assert(raws[p] == r);
                assert(quarantined(f.quarantine.held(item), p, r.version));
            }
            assert(g.quarantine == f.quarantine.held(item));
            if waits(f, p, x.entry) {
                lemma_same_waits(f, g, p, x.entry);
            }
            if waits(f, p, r) {
                lemma_same_waits(f, g, p, r);
            }
        },
        Verdict::Pass => {},
    }
}

proof fn lemma_groups(
    f: FolderView,
    now: Timestamp,
    groups: Groups,
    ks: Seq<((BatchId, NodeId), u64)>,
    brake: bool,
    o: ((BatchId, NodeId), u64),
    x: ItemView,
    r: EntryView,
)
    requires
        r.path == x.entry.path,
        forall|i: int| 0 <= i < ks.len() ==> groups[#[trigger] ks[i]].len() <= u64::MAX,
    ensures
        accounted(f, x, r) || (ks.contains(o) && groups[o].contains((x, r)) && alone(
            groups[o],
            x,
            r,
        )) ==> accounted(f.admit_groups(now, groups, ks, brake), x, r),
    decreases ks.len(),
{
    if ks.len() > 0 {
        let t = ks.drop_last();
        let z = ks.len() - 1;
        assert(ks[z] == ks.last());
        assert forall|i: int| 0 <= i < t.len() implies groups[#[trigger] t[i]].len()
            <= u64::MAX by {
            assert(t[i] == ks[i]);
        }
        lemma_groups(f, now, groups, t, brake, o, x, r);
        assert(groups[ks[z]].len() <= u64::MAX);
        lemma_group(
            f.admit_groups(now, groups, t, brake),
            now,
            ks.last(),
            groups[ks.last()],
            brake,
            x,
            r,
        );
        if ks.contains(o) {
            let i = choose|i: int| 0 <= i < ks.len() && ks[i] == o;
            if i < t.len() {
                assert(t[i] == o);
            }
        }
    }
}

/// Whether a pair is the only one of a group at its path.
spec fn alone(group: Seq<(ItemView, EntryView)>, x: ItemView, r: EntryView) -> bool {
    forall|i: int|
        0 <= i < group.len() && (#[trigger] group[i]).0.entry.path == x.entry.path ==> group[i] == (
        x,
        r,
    )
}

/// Whatever is let in is accounted for: it is wanted, or something that holds all of it is; or it
/// is quarantined; or it waits. Of two that came in one batch for one path one is enough.
pub proof fn law_every_candidate_is_accounted_for(
    f: FolderView,
    now: Timestamp,
    cs: Seq<CandidateView>,
    brake: bool,
    i: int,
)
    requires
        filed(f.quarantine),
        0 <= i < cs.len() <= u64::MAX,
        forall|j: int|
            0 <= j < cs.len() ==> (#[trigger] cs[j]).raw.path == cs[j].item.entry.path,
        forall|j: int|
            0 <= j < cs.len() && j != i ==> (#[trigger] cs[j]).item.entry.path
                != cs[i].item.entry.path || origin(cs[j]) != origin(cs[i]),
    ensures
        accounted(f.let_in(now, cs, brake), cs[i].item, cs[i].raw),
{
    reveal(FolderView::let_in);
    let c = cs[i];
    let x = c.item;
    let r = c.raw;
    let s0 = Sorting {
        wants: f.wants,
        quarantine: f.quarantine,
        groups: Map::empty(),
        joined: Map::empty(),
    };
    lemma_sort_all(s0, cs, brake, i);
    let t = f.sorted_out(cs, brake);
    let g = FolderView {
        wants: t.wants,
        quarantine: t.quarantine,
        statuses: f.statuses + joined_statuses(t.joined, in_order(t.joined.dom())),
        ..f
    };
    let ks = in_order(t.groups.dom());
    lemma_order_facts(t.groups.dom());
    assert forall|j: int| 0 <= j < ks.len() implies t.groups[#[trigger] ks[j]].len()
        <= u64::MAX by {
        assert(t.groups.dom().contains(ks[j]));
        assert(t.groups.contains_key(ks[j]));
    }
    let o = origin(c);
    if grouped(t.groups, c) {
        assert(t.groups.dom().contains(o));
        let group = t.groups[o];
        assert(alone(group, x, r)) by {
            assert forall|l: int|
                0 <= l < group.len() && (#[trigger] group[l]).0.entry.path
                    == x.entry.path implies group[l] == (x, r) by {
                assert(comes_from(cs, o, t.groups[o][l]));
                let a = choose|a: int|
                    0 <= a < cs.len() && origin(#[trigger] cs[a]) == o && t.groups[o][l] == (
                    cs[a].item,
                    cs[a].raw,
                );
                assert(a == i);
            }
        }
    }
    lemma_groups(g, now, t.groups, ks, brake, o, x, r);
}

} // verus!
