//! Where every want stands after a dispatch: it is handed to the host, taken into the index, parked
//! for a reason that holds, or waits for a slot or for another want.

use crate::batch::ApplyMode;
use crate::id::NodeId;
use crate::laws::want::lemma_fewer_fetches;
use crate::order::{in_order, increasing, lemma_order_facts, Ordered};
use crate::path::{ancestor, law_ancestor_first};
use crate::rules::Rules;
use crate::time::Timestamp;
use crate::want::{
    allowed, candidates, creates_among, deletes_among, fetch_keys, gated, lemma_put_counts, ready,
    seeks, selected, Dispatched, SelectionView, Tier, WantListView, WantState, WantStepView,
    WantView, Wants,
};
use vstd::prelude::*;

verus! {

/// Whether no source of a want has a free slot.
pub open spec fn full(list: WantListView, sources: Seq<(Tier, NodeId)>, rules: Rules) -> bool {
    list.fetching() >= rules.max_fetches_per_folder || forall|i: int|
        0 <= i < sources.len() ==> list.fetching_from((#[trigger] sources[i]).1)
            >= rules.max_fetches_per_peer
}

/// Whether no want waits for another although its content is still to be fetched.
pub open spec fn blocked_ready(m: Wants) -> bool {
    forall|p: Seq<u8>| #[trigger]
        m.contains_key(p) && m[p].state is Blocked ==> !m[p].needs_fetch()
}

/// Whether the state of a want is one that holds after a dispatch: with the host, parked for a
/// reason, or waiting for a slot or for another want.
pub open spec fn placed(
    list: WantListView,
    p: Seq<u8>,
    rules: Rules,
    peers: Map<NodeId, Tier>,
) -> bool {
    let w = list.wants[p];
    match w.state {
        WantState::Fetching { from, deadline } => true,
        WantState::Committing { deadline } => true,
        WantState::GaveUp => true,
        WantState::NoSource => w.needs_fetch() && selected(w, rules, peers)
            == SelectionView::NoSource,
        WantState::Deferred { need } => w.needs_fetch() && selected(w, rules, peers)
            == SelectionView::Deferred(need),
        WantState::Blocked => !w.needs_fetch() && gated(list.wants, w),
        WantState::Wanted => w.needs_fetch() && selected(w, rules, peers) is Sources && full(
            list,
            selected(w, rules, peers)->Sources_0,
            rules,
        ),
    }
}

/// Where a want may be fetched from does not depend on its state.
proof fn lemma_selected(w: WantView, state: WantState, rules: Rules, peers: Map<NodeId, Tier>)
    ensures
        selected(WantView { state, ..w }, rules, peers) == selected(w, rules, peers),
{
    let v = WantView { state, ..w };
    assert(candidates(v, peers) =~= candidates(w, peers));
    assert(allowed(v, rules, peers) =~= allowed(w, rules, peers));
}

// ---- choosing sources -------------------------------------------------------

/// A want once it is known whether it has a source.
spec fn chosen(w: WantView, rules: Rules, peers: Map<NodeId, Tier>) -> WantView {
    if seeks(w) {
        match selected(w, rules, peers) {
            SelectionView::Sources(_) => w,
            SelectionView::NoSource => WantView { state: WantState::NoSource, ..w },
            SelectionView::Deferred(need) => WantView { state: WantState::Deferred { need }, ..w },
        }
    } else {
        w
    }
}

proof fn lemma_reselected(
    s: WantListView,
    ks: Seq<Seq<u8>>,
    rules: Rules,
    peers: Map<NodeId, Tier>,
)
    ensures
        s.reselected(s.wants, ks, rules, peers).wants.dom() =~= s.wants.dom(),
        forall|p: Seq<u8>| #[trigger]
            s.wants.contains_key(p) ==> s.reselected(s.wants, ks, rules, peers).wants[p]
                == if ks.contains(p) {
                chosen(s.wants[p], rules, peers)
            } else {
                s.wants[p]
            },
    decreases ks.len(),
{
    if ks.len() > 0 {
        let t = ks.drop_last();
        let q = ks.last();
        lemma_reselected(s, t, rules, peers);
        let b = s.reselected(s.wants, t, rules, peers);
        let r = s.reselected(s.wants, ks, rules, peers);
        assert forall|p: Seq<u8>| #[trigger] s.wants.contains_key(p) implies r.wants[p]
            == if ks.contains(p) {
            chosen(s.wants[p], rules, peers)
        } else {
            s.wants[p]
        } by {
            lemma_last_contains(ks, p);
            assert(b.wants.dom().contains(p));
        }
        if s.wants.contains_key(q) {
            assert(b.wants.dom().contains(q));
        }
    }
}

proof fn lemma_last_contains<A>(ks: Seq<A>, p: A)
    requires
        ks.len() > 0,
    ensures
        ks.contains(p) <==> ks.drop_last().contains(p) || ks.last() == p,
{
    let t = ks.drop_last();
    if ks.contains(p) {
        let i = choose|i: int| 0 <= i < ks.len() && ks[i] == p;
        if i < t.len() {
            assert(t[i] == p);
        }
    }
    if t.contains(p) {
        let i = choose|i: int| 0 <= i < t.len() && t[i] == p;
        assert(ks[i] == p);
    }
    if ks.last() == p {
        assert(ks[ks.len() - 1] == p);
    }
}

// ---- giving out slots -------------------------------------------------------

proof fn lemma_no_free_source(s: WantListView, l: Seq<(Tier, NodeId)>, rules: Rules)
    requires
        s.free_source(l, rules) is None,
    ensures
        forall|i: int|
            0 <= i < l.len() ==> s.fetching_from((#[trigger] l[i]).1)
                >= rules.max_fetches_per_peer,
    decreases l.len(),
{
    if l.len() > 0 {
        let t = l.drop_last();
        lemma_no_free_source(s, t, rules);
        assert forall|i: int| 0 <= i < l.len() implies s.fetching_from((#[trigger] l[i]).1)
            >= rules.max_fetches_per_peer by {
            if i < t.len() {
                assert(t[i] == l[i]);
            }
        }
    }
}

/// Whether as many fetches run in `b` as in `a`, from every node.
spec fn busier(a: WantListView, b: WantListView) -> bool {
    &&& a.fetching() <= b.fetching()
    &&& forall|n: NodeId| #[trigger] a.fetching_from(n) <= b.fetching_from(n)
}

proof fn lemma_full_stays(
    a: WantListView,
    b: WantListView,
    sources: Seq<(Tier, NodeId)>,
    rules: Rules,
)
    requires
        busier(a, b),
        full(a, sources, rules),
    ensures
        full(b, sources, rules),
{
    if a.fetching() < rules.max_fetches_per_folder {
        assert forall|i: int| 0 <= i < sources.len() implies b.fetching_from(
            (#[trigger] sources[i]).1,
        ) >= rules.max_fetches_per_peer by {
            assert(a.fetching_from(sources[i].1) <= b.fetching_from(sources[i].1));
        }
    }
}

/// Whether a path is among some keys.
spec fn keyed(ks: Seq<((Tier, NodeId), Seq<u8>)>, p: Seq<u8>) -> bool {
    exists|i: int| 0 <= i < ks.len() && (#[trigger] ks[i]).1 == p
}

/// How a want stands once slots were given out.
spec fn assigned(
    before: WantView,
    list: WantListView,
    p: Seq<u8>,
    rules: Rules,
    peers: Map<NodeId, Tier>,
) -> bool {
    let w = list.wants[p];
    &&& w == (WantView { state: w.state, ..before })
    &&& w.state is Fetching || (w.state is Wanted && full(
        list,
        selected(before, rules, peers)->Sources_0,
        rules,
    ))
}

proof fn lemma_fetches(
    d: Dispatched,
    from: Wants,
    ks: Seq<((Tier, NodeId), Seq<u8>)>,
    now: Timestamp,
    rules: Rules,
    peers: Map<NodeId, Tier>,
)
    requires
        d.list.wants.dom().finite(),
        d.list.wants.dom() == from.dom(),
        forall|i: int|
            0 <= i < ks.len() ==> from.contains_key((#[trigger] ks[i]).1)
                && d.list.wants[ks[i].1] == from[ks[i].1] && !(from[ks[i].1].state is Fetching),
        forall|i: int, j: int|
            0 <= i < j < ks.len() ==> (#[trigger] ks[i]).1 != (#[trigger] ks[j]).1,
    ensures
        ({
            let r = d.fetches(from, ks, now, rules, peers);
            &&& r.list.wants.dom() == d.list.wants.dom()
            &&& busier(d.list, r.list)
            &&& forall|p: Seq<u8>| #[trigger]
                from.contains_key(p) ==> if keyed(ks, p) {
                    assigned(from[p], r.list, p, rules, peers)
                } else {
                    r.list.wants[p] == d.list.wants[p]
                }
        }),
    decreases ks.len(),
{
    if ks.len() > 0 {
        let t = ks.drop_last();
        let q = ks.last().1;
        assert(ks[ks.len() - 1].1 == q);
        assert forall|i: int| 0 <= i < t.len() implies from.contains_key((#[trigger] t[i]).1)
            && d.list.wants[t[i].1] == from[t[i].1] && !(from[t[i].1].state is Fetching) by {
            assert(t[i] == ks[i]);
        }
        assert forall|i: int, j: int| 0 <= i < j < t.len() implies (#[trigger] t[i]).1 != (
        #[trigger] t[j]).1 by {
            assert(ks[i].1 != ks[j].1);
        }
        lemma_fetches(d, from, t, now, rules, peers);
        let b = d.fetches(from, t, now, rules, peers);
        let r = d.fetches(from, ks, now, rules, peers);
        assert(!keyed(t, q)) by {
            if keyed(t, q) {
                let i = choose|i: int| 0 <= i < t.len() && (#[trigger] t[i]).1 == q;
                assert(ks[i].1 != ks[ks.len() - 1].1);
            }
        }
        assert(from.contains_key(q));
        assert(b.list.wants[q] == from[q]);
        assert(b.list.wants.dom().contains(q));
        let sources = selected(from[q], rules, peers)->Sources_0;
        let wanted = WantView { state: WantState::Wanted, ..from[q] };
        assert(r.list.wants.dom() =~= b.list.wants.dom());
        assert(busier(b.list, r.list)) by {
            assert forall|n: NodeId| #[trigger] b.list.fetching_from(n) <= r.list.fetching_from(
                n,
            ) by {
                lemma_put_counts(b.list, q, r.list.wants[q], n);
                lemma_put_counts(b.list, q, wanted, n);
            }
            lemma_put_counts(b.list, q, r.list.wants[q], ks.last().0.1);
        }
        assert(busier(d.list, r.list)) by {
            assert forall|n: NodeId| #[trigger] d.list.fetching_from(n) <= r.list.fetching_from(
                n,
            ) by {
                assert(b.list.fetching_from(n) <= r.list.fetching_from(n));
            }
        }
        assert forall|p: Seq<u8>| #[trigger] from.contains_key(p) implies if keyed(ks, p) {
            assigned(from[p], r.list, p, rules, peers)
        } else {
            r.list.wants[p] == d.list.wants[p]
        } by {
            assert(keyed(ks, p) <==> keyed(t, p) || p == q) by {
                if keyed(ks, p) {
                    let i = choose|i: int| 0 <= i < ks.len() && (#[trigger] ks[i]).1 == p;
                    if i < t.len() {
                        assert(t[i].1 == p);
                    }
                }
                if keyed(t, p) {
                    let i = choose|i: int| 0 <= i < t.len() && (#[trigger] t[i]).1 == p;
                    assert(ks[i].1 == p);
                }
            }
            if p == q {
                if r.list.wants[q].state is Wanted {
                    if b.list.fetching() < rules.max_fetches_per_folder {
                        lemma_no_free_source(b.list, sources, rules);
                    }
                    assert(full(b.list, sources, rules));
                    lemma_full_stays(b.list, r.list, sources, rules);
                }
            } else {
                assert(r.list.wants[p] == b.list.wants[p]);
                if keyed(t, p) && b.list.wants[p].state is Wanted {
                    lemma_full_stays(
                        b.list,
                        r.list,
                        selected(from[p], rules, peers)->Sources_0,
                        rules,
                    );
                }
            }
        }
    }
}

// ---- committing -------------------------------------------------------------

/// Creations and deletions that are ready, in path order.
pub proof fn lemma_creates(m: Wants, ks: Seq<Seq<u8>>)
    requires
        increasing(ks),
    ensures
        increasing(creates_among(m, ks)),
        increasing(deletes_among(m, ks)),
        forall|p: Seq<u8>| #[trigger]
            creates_among(m, ks).contains(p) <==> ks.contains(p) && ready(m[p])
                && !m[p].entry.deleted,
        forall|p: Seq<u8>| #[trigger]
            deletes_among(m, ks).contains(p) <==> ks.contains(p) && ready(m[p])
                && m[p].entry.deleted,
    decreases ks.len(),
{
    if ks.len() > 0 {
        let t = ks.drop_last();
        let x = ks.last();
        assert(increasing(t)) by {
            assert forall|i: int, j: int| 0 <= i < j < t.len() implies (#[trigger] t[i]).before(
                #[trigger] t[j],
            ) by {
                assert(ks[i].before(ks[j]));
            }
        }
        lemma_creates(m, t);
        lemma_push(m, ks, creates_among(m, t), creates_among(m, ks));
        lemma_push(m, ks, deletes_among(m, t), deletes_among(m, ks));
        assert forall|p: Seq<u8>| #[trigger]
            creates_among(m, ks).contains(p) <==> ks.contains(p) && ready(m[p])
                && !m[p].entry.deleted by {
            lemma_last_contains(ks, p);
            if creates_among(m, ks) != creates_among(m, t) {
                assert(creates_among(m, ks).drop_last() =~= creates_among(m, t));
                lemma_last_contains(creates_among(m, ks), p);
            }
        }
        assert forall|p: Seq<u8>| #[trigger]
            deletes_among(m, ks).contains(p) <==> ks.contains(p) && ready(m[p])
                && m[p].entry.deleted by {
            lemma_last_contains(ks, p);
            if deletes_among(m, ks) != deletes_among(m, t) {
                assert(deletes_among(m, ks).drop_last() =~= deletes_among(m, t));
                lemma_last_contains(deletes_among(m, ks), p);
            }
        }
    }
}

/// A list of some earlier paths stays in order with the last one behind it.
proof fn lemma_push(m: Wants, ks: Seq<Seq<u8>>, a: Seq<Seq<u8>>, b: Seq<Seq<u8>>)
    requires
        ks.len() > 0,
        increasing(ks),
        increasing(a),
        forall|p: Seq<u8>| #[trigger] a.contains(p) ==> ks.drop_last().contains(p),
        b == a || b == a.push(ks.last()),
    ensures
        increasing(b),
{
    assert forall|i: int, j: int| 0 <= i < j < b.len() implies (#[trigger] b[i]).before(
        #[trigger] b[j],
    ) by {
        assert(b[i] == a[i]);
        if j < a.len() {
            assert(b[j] == a[j]);
        } else {
            assert(a.contains(a[i]));
            let t = ks.drop_last();
            let k = choose|k: int| 0 <= k < t.len() && t[k] == a[i];
            assert(ks[k].before(ks[ks.len() - 1]));
        }
    }
}

/// Whether no want that another waits for comes after it.
pub open spec fn leads(m: Wants, ps: Seq<Seq<u8>>) -> bool {
    forall|i: int, j: int|
        0 <= i < j < ps.len() ==> {
            let a = m[#[trigger] ps[i]];
            let b = m[#[trigger] ps[j]];
            &&& !(!a.entry.deleted && b.makes_dir() && ancestor(b.entry.path, a.entry.path))
            &&& !(a.entry.deleted && b.entry.deleted && ancestor(a.entry.path, b.entry.path))
        }
}

/// In which order wants are committed.
pub proof fn lemma_commit_order(s: WantListView)
    requires
        s.wants.dom().finite(),
        forall|p: Seq<u8>| #[trigger]
            s.wants.contains_key(p) ==> s.wants[p].entry.path == p,
    ensures
        leads(s.wants, s.commit_order()),
        s.commit_order().no_duplicates(),
        forall|p: Seq<u8>| #[trigger]
            s.commit_order().contains(p) <==> s.wants.contains_key(p) && ready(s.wants[p]),
{
    let m = s.wants;
    let ks = s.paths();
    lemma_order_facts(m.dom());
    lemma_creates(m, ks);
    let cs = creates_among(m, ks);
    let ds = deletes_among(m, ks);
    let rs = ds.reverse();
    let ps = s.commit_order();
    assert forall|i: int| 0 <= i < ps.len() implies if i < cs.len() {
        cs.contains(#[trigger] ps[i])
    } else {
        ds.contains(ps[i])
    } by {
        if i < cs.len() {
            assert(ps[i] == cs[i]);
        } else {
            assert(ps[i] == ds[ds.len() - 1 - (i - cs.len())]);
        }
    }
    assert forall|p: Seq<u8>| #[trigger] ps.contains(p) <==> m.contains_key(p) && ready(
        m[p],
    ) by {
        if ps.contains(p) {
            let i = choose|i: int| 0 <= i < ps.len() && ps[i] == p;
            if i < cs.len() {
                assert(cs.contains(p));
            } else {
                assert(ds.contains(p));
            }
            assert(ks.contains(p));
            assert(m.dom().contains(p));
        }
        if m.contains_key(p) && ready(m[p]) {
            assert(m.dom().contains(p));
            assert(ks.contains(p));
            if m[p].entry.deleted {
                assert(ds.contains(p));
                let i = choose|i: int| 0 <= i < ds.len() && ds[i] == p;
                assert(ps[cs.len() + (ds.len() - 1 - i)] == p);
            } else {
                assert(cs.contains(p));
                let i = choose|i: int| 0 <= i < cs.len() && cs[i] == p;
                assert(ps[i] == p);
            }
        }
    }
    assert forall|i: int, j: int| 0 <= i < j < ps.len() implies ({
        let a = m[#[trigger] ps[i]];
        let b = m[#[trigger] ps[j]];
        &&& ps[i] != ps[j]
        &&& !(!a.entry.deleted && b.makes_dir() && ancestor(b.entry.path, a.entry.path))
        &&& !(a.entry.deleted && b.entry.deleted && ancestor(a.entry.path, b.entry.path))
    }) by {
        let (x, y) = (ps[i], ps[j]);
        assert(ps.contains(x) && ps.contains(y));
        assert(m.contains_key(x) && m.contains_key(y));
        Ordered::irreflexive(x);
        if i < cs.len() {
            assert(cs.contains(x));
            if j < cs.len() {
                assert(cs[i].before(cs[j]));
                if ancestor(y, x) {
                    law_ancestor_first(y, x);
                    Ordered::transitive(x, y, x);
                }
            } else {
                assert(ds.contains(y));
            }
        } else {
            assert(ds.contains(x) && ds.contains(y));
            let a = ds.len() - 1 - (i - cs.len());
            let b = ds.len() - 1 - (j - cs.len());
            assert(ds[b].before(ds[a]));
            if ancestor(x, y) {
                law_ancestor_first(x, y);
                Ordered::transitive(x, y, x);
            }
        }
    }
    assert(ps.no_duplicates()) by {
        assert forall|i: int, j: int| 0 <= i < ps.len() && 0 <= j < ps.len() && i != j implies
            ps[i] != ps[j] by {
            if i < j {
                assert(ps[i] != ps[j]);
            } else {
                assert(ps[j] != ps[i]);
            }
        }
    }
}

/// Whether a step takes a want into the index as it is.
pub open spec fn adopts(steps: Seq<WantStepView>, w: WantView) -> bool {
    exists|i: int|
        0 <= i < steps.len() && (#[trigger] steps[i]) is Adopt && steps[i]->Adopt_0.entry
            == w.entry && steps[i]->Adopt_0.mode == ApplyMode::IndexOnly
}

/// How a want that was ready stands once commits were made: gone into the index, with the host, or
/// waiting for another.
spec fn turned(d: Dispatched, before: WantView, p: Seq<u8>) -> bool {
    if d.list.wants.contains_key(p) {
        let w = d.list.wants[p];
        &&& w == (WantView { state: w.state, ..before })
        &&& w.state is Committing || (w.state is Blocked && gated(d.list.wants, w))
    } else {
        adopts(d.steps, before)
    }
}

proof fn lemma_commits(d: Dispatched, ps: Seq<Seq<u8>>, now: Timestamp)
    requires
        leads(d.list.wants, ps),
        ps.no_duplicates(),
        forall|p: Seq<u8>| #[trigger]
            d.list.wants.contains_key(p) ==> d.list.wants[p].entry.path == p,
        forall|i: int| 0 <= i < ps.len() ==> d.list.wants.contains_key(#[trigger] ps[i]),
    ensures
        ({
            let r = d.commits(ps, now);
            &&& r.list.wants.dom().subset_of(d.list.wants.dom())
            &&& forall|p: Seq<u8>| #[trigger]
                d.list.wants.contains_key(p) ==> if ps.contains(p) {
                    turned(r, d.list.wants[p], p)
                } else {
                    r.list.wants.contains_key(p) && r.list.wants[p] == d.list.wants[p]
                }
        }),
    decreases ps.len(),
{
    if ps.len() > 0 {
        let t = ps.drop_last();
        let q = ps.last();
        let m = d.list.wants;
        assert(ps[ps.len() - 1] == q);
        assert forall|i: int| 0 <= i < t.len() implies m.contains_key(#[trigger] t[i]) by {
            assert(t[i] == ps[i]);
        }
        assert(leads(m, t)) by {
            assert forall|i: int, j: int| 0 <= i < j < t.len() implies ({
                let a = m[#[trigger] t[i]];
                let b = m[#[trigger] t[j]];
                &&& !(!a.entry.deleted && b.makes_dir() && ancestor(b.entry.path, a.entry.path))
                &&& !(a.entry.deleted && b.entry.deleted && ancestor(
                    a.entry.path,
                    b.entry.path,
                ))
            }) by {
                assert(ps[i] == t[i] && ps[j] == t[j]);
            }
        }
        assert forall|i: int, j: int| 0 <= i < t.len() && 0 <= j < t.len() && i != j implies t[i]
            != t[j] by {
            assert(ps[i] != ps[j]);
        }
        lemma_commits(d, t, now);
        let b = d.commits(t, now);
        let r = d.commits(ps, now);
        assert(!t.contains(q)) by {
            if t.contains(q) {
                let i = choose|i: int| 0 <= i < t.len() && t[i] == q;
                assert(ps[i] != ps[ps.len() - 1]);
            }
        }
        assert(m.contains_key(q));
        assert(b.list.wants.contains_key(q) && b.list.wants[q] == m[q]);
        assert forall|p: Seq<u8>| #[trigger] m.contains_key(p) implies if ps.contains(p) {
            turned(r, m[p], p)
        } else {
            r.list.wants.contains_key(p) && r.list.wants[p] == m[p]
        } by {
            lemma_last_contains(ps, p);
            if p == q {
                if r.list.wants.contains_key(q) {
                    if r.list.wants[q].state is Blocked {
                        lemma_gate_stays(b.list.wants, r.list.wants, m[q]);
                        lemma_gate_stateless(r.list.wants, m[q], r.list.wants[q]);
                    }
                } else {
                    assert(r.steps[r.steps.len() - 1] is Adopt);
                    assert(adopts(r.steps, m[q]));
                }
            } else if t.contains(p) {
                assert(turned(b, m[p], p));
                if b.list.wants.contains_key(p) {
                    let w = b.list.wants[p];
                    assert(r.list.wants[p] == w);
                    if w.state is Blocked {
                        let i = choose|i: int| 0 <= i < t.len() && t[i] == p;
                        assert(ps[i] == p);
                        lemma_gate_kept(m, b.list.wants, r.list.wants, w, ps, i);
                    }
                } else {
                    let i = choose|i: int|
                        0 <= i < b.steps.len() && (#[trigger] b.steps[i]) is Adopt
                            && b.steps[i]->Adopt_0.entry == m[p].entry && b.steps[i]->Adopt_0.mode
                            == ApplyMode::IndexOnly;
                    assert(r.steps[i] == b.steps[i]);
                    assert(adopts(r.steps, m[p]));
                }
            }
        }
    }
}

/// Waiting does not depend on the state of the want that waits.
proof fn lemma_gate_stateless(m: Wants, a: WantView, b: WantView)
    requires
        gated(m, a),
        a.entry == b.entry,
    ensures
        gated(m, b),
{
}

/// Waiting goes on if no entry is gone.
proof fn lemma_gate_stays(a: Wants, b: Wants, w: WantView)
    requires
        gated(a, w),
        forall|p: Seq<u8>| #[trigger]
            a.contains_key(p) ==> b.contains_key(p) && b[p].entry == a[p].entry,
    ensures
        gated(b, w),
{
    if w.entry.deleted {
        let p = choose|p: Seq<u8>| #[trigger]
            a.contains_key(p) && a[p].entry.deleted && ancestor(w.entry.path, a[p].entry.path);
        assert(b.contains_key(p) && b[p].entry.deleted && ancestor(
            w.entry.path,
            b[p].entry.path,
        ));
    } else {
        let p = choose|p: Seq<u8>| #[trigger]
            a.contains_key(p) && a[p].makes_dir() && ancestor(a[p].entry.path, w.entry.path);
        assert(b.contains_key(p) && b[p].makes_dir() && ancestor(b[p].entry.path, w.entry.path));
    }
}

/// Waiting goes on when a later want is gone: it is not one that was waited for.
proof fn lemma_gate_kept(
    m: Wants,
    a: Wants,
    b: Wants,
    w: WantView,
    ps: Seq<Seq<u8>>,
    i: int,
)
    requires
        leads(m, ps),
        0 <= i < ps.len() - 1,
        w.entry == m[ps[i]].entry,
        gated(a, w),
        forall|p: Seq<u8>| #[trigger] a.contains_key(p) ==> a[p].entry == m[p].entry,
        forall|p: Seq<u8>| #[trigger]
            a.contains_key(p) && p != ps.last() ==> b.contains_key(p) && b[p].entry == a[p].entry,
    ensures
        gated(b, w),
{
    let q = ps.last();
    assert(ps[ps.len() - 1] == q);
    let x = m[ps[i]];
    let y = m[ps[ps.len() - 1]];
    if w.entry.deleted {
        let p = choose|p: Seq<u8>| #[trigger]
            a.contains_key(p) && a[p].entry.deleted && ancestor(w.entry.path, a[p].entry.path);
        assert(p != q);
        assert(b.contains_key(p) && b[p].entry.deleted && ancestor(
            w.entry.path,
            b[p].entry.path,
        ));
    } else {
        let p = choose|p: Seq<u8>| #[trigger]
            a.contains_key(p) && a[p].makes_dir() && ancestor(a[p].entry.path, w.entry.path);
        assert(p != q);
        assert(b.contains_key(p) && b[p].makes_dir() && ancestor(b[p].entry.path, w.entry.path));
    }
}

// ---- the whole --------------------------------------------------------------

/// After a dispatch every want is in exactly one place: it is with the host, or gave up, or has no
/// source, or none that carries it, or waits for a slot that is not free or for a want that must
/// come first; or it has left the list for the index.
pub proof fn law_every_want_has_its_place(
    s: WantListView,
    now: Timestamp,
    rules: Rules,
    peers: Map<NodeId, Tier>,
    p: Seq<u8>,
)
    requires
        s.well_formed(),
        blocked_ready(s.wants),
        s.wants.contains_key(p),
    ensures
        ({
            let r = s.dispatched(now, rules, peers);
            if r.list.wants.contains_key(p) {
                &&& placed(r.list, p, rules, peers)
                &&& r.list.wants[p] == (WantView {
                    state: r.list.wants[p].state,
                    ..s.wants[p]
                })
            } else {
                adopts(r.steps, s.wants[p])
            }
        }),
        blocked_ready(s.dispatched(now, rules, peers).list.wants),
{
    lemma_placed(s, now, rules, peers);
    let r = s.dispatched(now, rules, peers).list;
    assert forall|x: Seq<u8>| #[trigger]
        r.wants.contains_key(x) && r.wants[x].state is Blocked implies !r.wants[x].needs_fetch() by {
        assert(r.wants.dom().contains(x));
        assert(s.wants.dom().contains(x));
        assert(s.wants.contains_key(x));
    }
}

proof fn lemma_keys_finite(m: Wants, rules: Rules, peers: Map<NodeId, Tier>)
    requires
        m.dom().finite(),
    ensures
        fetch_keys(m, rules, peers).finite(),
{
    let f = |p: Seq<u8>| (selected(m[p], rules, peers)->Sources_0[0], p);
    m.dom().lemma_map_finite(f);
    let image = m.dom().map(f);
    assert forall|k: ((Tier, NodeId), Seq<u8>)| #[trigger]
        fetch_keys(m, rules, peers).contains(k) implies image.contains(k) by {
        assert(m.dom().contains(k.1));
        assert(f(k.1) == k);
    }
    vstd::set_lib::lemma_set_subset_finite(image, fetch_keys(m, rules, peers));
}

/// Commits end no fetch: what is ready to be committed is not being fetched.
proof fn lemma_same_fetches(
    a: WantListView,
    b: WantListView,
    ps: Seq<Seq<u8>>,
    node: NodeId,
)
    requires
        a.wants.dom().finite(),
        b.wants.dom().subset_of(a.wants.dom()),
        forall|p: Seq<u8>| #[trigger]
            ps.contains(p) ==> ready(a.wants[p]),
        forall|p: Seq<u8>| #[trigger]
            a.wants.contains_key(p) && !ps.contains(p) ==> b.wants.contains_key(p) && b.wants[p]
                == a.wants[p],
    ensures
        a.fetching() <= b.fetching(),
        a.fetching_from(node) <= b.fetching_from(node),
{
    vstd::set_lib::lemma_set_subset_finite(a.wants.dom(), b.wants.dom());
    lemma_fewer_fetches(b, a, node);
}

/// Where the wants stand after a dispatch, all at once.
pub proof fn lemma_placed(s: WantListView, now: Timestamp, rules: Rules, peers: Map<NodeId, Tier>)
    requires
        s.well_formed(),
        blocked_ready(s.wants),
    ensures
        ({
            let r = s.dispatched(now, rules, peers);
            &&& r.list.wants.dom().subset_of(s.wants.dom())
            &&& forall|p: Seq<u8>| #[trigger]
                s.wants.contains_key(p) ==> if r.list.wants.contains_key(p) {
                    &&& placed(r.list, p, rules, peers)
                    &&& r.list.wants[p] == (WantView {
                        state: r.list.wants[p].state,
                        ..s.wants[p]
                    })
                } else {
                    adopts(r.steps, s.wants[p])
                }
        }),
{
    let m = s.wants;
    lemma_order_facts(m.dom());
    lemma_reselected(s, s.paths(), rules, peers);
    let c = s.reselected(m, s.paths(), rules, peers);
    assert(c.wants.dom() =~= m.dom());
    let d0 = Dispatched { list: c, steps: Seq::empty() };
    let keys = fetch_keys(m, rules, peers);
    lemma_keys_finite(m, rules, peers);
    lemma_order_facts(keys);
    let ks = in_order(keys);
    assert forall|i: int| 0 <= i < ks.len() implies m.contains_key((#[trigger] ks[i]).1)
        && c.wants[ks[i].1] == m[ks[i].1] && !(m[ks[i].1].state is Fetching) by {
        assert(keys.contains(ks[i]));
        assert(m.dom().contains(ks[i].1));
    }
    assert forall|i: int, j: int| 0 <= i < j < ks.len() implies (#[trigger] ks[i]).1 != (
    #[trigger] ks[j]).1 by {
        assert(keys.contains(ks[i]) && keys.contains(ks[j]));
        assert(ks[i] != ks[j]);
    }
    lemma_fetches(d0, m, ks, now, rules, peers);
    let f = s.fetch_phase(now, rules, peers);
    assert(f == d0.fetches(m, ks, now, rules, peers));
    assert forall|p: Seq<u8>| #[trigger]
        f.list.wants.contains_key(p) implies f.list.wants[p].entry.path == p by {
        assert(f.list.wants.dom().contains(p));
        assert(m.contains_key(p));
    }
    lemma_commit_order(f.list);
    let ps = f.list.commit_order();
    assert forall|i: int| 0 <= i < ps.len() implies f.list.wants.contains_key(#[trigger] ps[i]) by {
        assert(ps.contains(ps[i]));
    }
    lemma_commits(f, ps, now);
    let r = s.dispatched(now, rules, peers);
    // The fetches that run are those of the fetch phase.
    assert(busier(f.list, r.list)) by {
        assert forall|n: NodeId| #[trigger] f.list.fetching_from(n) <= r.list.fetching_from(
            n,
        ) by {
            lemma_same_fetches(f.list, r.list, ps, n);
        }
        let any = vstd::pervasive::arbitrary::<NodeId>();
        lemma_same_fetches(f.list, r.list, ps, any);
    }
    assert forall|p: Seq<u8>| #[trigger] m.contains_key(p) implies if r.list.wants.contains_key(p) {
        &&& placed(r.list, p, rules, peers)
        &&& r.list.wants[p] == (WantView { state: r.list.wants[p].state, ..m[p] })
    } else {
        adopts(r.steps, m[p])
    } by {
        assert(m.dom().contains(p));
        assert(s.paths().contains(p));
        assert(f.list.wants.dom().contains(p));
        assert(f.list.wants.contains_key(p));
        let w = m[p];
        let x = f.list.wants[p];
        lemma_selected(w, x.state, rules, peers);
        assert(keyed(ks, p) <==> seeks(w) && selected(w, rules, peers) is Sources) by {
            if seeks(w) && selected(w, rules, peers) is Sources {
                let k = (selected(w, rules, peers)->Sources_0[0], p);
                assert(keys.contains(k));
                let i = choose|i: int| 0 <= i < ks.len() && ks[i] == k;
                assert(ks[i].1 == p);
            }
            if keyed(ks, p) {
                let i = choose|i: int| 0 <= i < ks.len() && (#[trigger] ks[i]).1 == p;
                assert(keys.contains(ks[i]));
            }
        }
        if !ps.contains(p) {
            assert(r.list.wants[p] == x);
            if keyed(ks, p) && x.state is Wanted {
                lemma_full_stays(f.list, r.list, selected(w, rules, peers)->Sources_0, rules);
            }
        }
    }
}

} // verus!
