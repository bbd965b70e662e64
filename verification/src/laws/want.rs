//! Laws of the want-list.

use crate::batch::ItemView;
use crate::entry::EntryView;
use crate::id::{BatchId, NodeId};
use crate::order::{in_order, lemma_order_facts, lemma_take_contains};
use crate::path::ancestor;
use crate::rules::Rules;
use crate::time::{FETCH_STALL_NANOS, Timestamp};
use crate::version::Vector;
use crate::want::{
    allowed, candidates, fetch_keys, fetching_among, fetching_from_among, gated, is_fetching,
    is_fetching_from, lemma_put_counts, overdue_among, selected, Dispatched, FetchReport, Tier,
    WantListView, WantState, WantStepView, WantView, Wants,
};
use vstd::prelude::*;

verus! {

// ---- counts -----------------------------------------------------------------

/// The larger of two numbers.
pub open spec fn larger(a: nat, b: nat) -> nat {
    if a >= b {
        a
    } else {
        b
    }
}

/// The paths among some whose wants are being fetched.
pub open spec fn fetching_set(m: Wants, ks: Seq<Seq<u8>>) -> Set<Seq<u8>> {
    ks.to_set().filter(|p: Seq<u8>| is_fetching(m[p]))
}

/// The paths among some whose wants are being fetched from a node.
pub open spec fn fetching_from_set(m: Wants, ks: Seq<Seq<u8>>, node: NodeId) -> Set<Seq<u8>> {
    ks.to_set().filter(|p: Seq<u8>| is_fetching_from(m[p], node))
}

/// Counting fetches path by path.
pub proof fn lemma_counts_are_sets(m: Wants, ks: Seq<Seq<u8>>, node: NodeId)
    requires
        ks.no_duplicates(),
    ensures
        fetching_set(m, ks).finite(),
        fetching_from_set(m, ks, node).finite(),
        fetching_among(m, ks) == fetching_set(m, ks).len(),
        fetching_from_among(m, ks, node) == fetching_from_set(m, ks, node).len(),
    decreases ks.len(),
{
    vstd::seq_lib::seq_to_set_is_finite(ks);
    if ks.len() == 0 {
        assert(fetching_set(m, ks) =~= Set::empty());
        assert(fetching_from_set(m, ks, node) =~= Set::empty());
    } else {
        let t = ks.drop_last();
        let x = ks.last();
        lemma_counts_are_sets(m, t, node);
        assert(ks =~= t.push(x));
        t.lemma_push_to_set_commute(x);
        lemma_take_contains(ks, ks.len() - 1, x);
        assert(ks.take(ks.len() - 1) =~= t);
        assert(!t.contains(x));
        if is_fetching(m[x]) {
            assert(fetching_set(m, ks) =~= fetching_set(m, t).insert(x));
        } else {
            assert(fetching_set(m, ks) =~= fetching_set(m, t));
        }
        if is_fetching_from(m[x], node) {
            assert(fetching_from_set(m, ks, node) =~= fetching_from_set(m, t, node).insert(x));
        } else {
            assert(fetching_from_set(m, ks, node) =~= fetching_from_set(m, t, node));
        }
    }
}

/// Fewer fetches run if each one that runs ran before.
pub proof fn lemma_fewer_fetches(a: WantListView, b: WantListView, node: NodeId)
    requires
        a.wants.dom().finite(),
        b.wants.dom().finite(),
        forall|p: Seq<u8>| #[trigger]
            b.wants.contains_key(p) && is_fetching(b.wants[p]) ==> a.wants.contains_key(p)
                && is_fetching(a.wants[p]),
        forall|p: Seq<u8>| #[trigger]
            b.wants.contains_key(p) && is_fetching_from(b.wants[p], node) ==> a.wants.contains_key(
                p,
            ) && is_fetching_from(a.wants[p], node),
    ensures
        b.fetching() <= a.fetching(),
        b.fetching_from(node) <= a.fetching_from(node),
{
    lemma_order_facts(a.wants.dom());
    lemma_order_facts(b.wants.dom());
    lemma_counts_are_sets(a.wants, a.paths(), node);
    lemma_counts_are_sets(b.wants, b.paths(), node);
    let fa = fetching_set(a.wants, a.paths());
    let fb = fetching_set(b.wants, b.paths());
    assert forall|p: Seq<u8>| #[trigger] fb.contains(p) implies fa.contains(p) by {
        assert(b.paths().contains(p));
        assert(b.wants.dom().contains(p));
        assert(b.wants.contains_key(p));
        assert(a.wants.dom().contains(p));
    }
    vstd::set_lib::lemma_len_subset(fb, fa);
    let ga = fetching_from_set(a.wants, a.paths(), node);
    let gb = fetching_from_set(b.wants, b.paths(), node);
    assert forall|p: Seq<u8>| #[trigger] gb.contains(p) implies ga.contains(p) by {
        assert(b.paths().contains(p));
        assert(b.wants.dom().contains(p));
        assert(b.wants.contains_key(p));
        assert(a.wants.dom().contains(p));
    }
    vstd::set_lib::lemma_len_subset(gb, ga);
}

/// Whether no fetch runs in `b` that did not run in `a`, and nothing is wanted that was not.
spec fn calmer(a: Wants, b: Wants) -> bool {
    &&& a.dom().finite()
    &&& b.dom().subset_of(a.dom())
    &&& forall|p: Seq<u8>| #[trigger]
        b.contains_key(p) && is_fetching(b[p]) ==> b[p].state == a[p].state
}

proof fn lemma_calmer_counts(a: WantListView, b: WantListView, node: NodeId)
    requires
        calmer(a.wants, b.wants),
    ensures
        b.wants.dom().finite(),
        b.fetching() <= a.fetching(),
        b.fetching_from(node) <= a.fetching_from(node),
{
    vstd::set_lib::lemma_set_subset_finite(a.wants.dom(), b.wants.dom());
    assert forall|p: Seq<u8>| #[trigger]
        b.wants.contains_key(p) && is_fetching(b.wants[p]) implies a.wants.contains_key(p)
        && is_fetching(a.wants[p]) by {
        assert(b.wants.dom().contains(p));
    }
    assert forall|p: Seq<u8>| #[trigger]
        b.wants.contains_key(p) && is_fetching_from(b.wants[p], node) implies a.wants.contains_key(
        p,
    ) && is_fetching_from(a.wants[p], node) by {
        assert(b.wants.dom().contains(p));
    }
    lemma_fewer_fetches(a, b, node);
}

proof fn lemma_reselected_calmer(
    s: WantListView,
    ks: Seq<Seq<u8>>,
    rules: Rules,
    peers: Map<NodeId, Tier>,
)
    requires
        s.wants.dom().finite(),
    ensures
        calmer(s.wants, s.reselected(s.wants, ks, rules, peers).wants),
    decreases ks.len(),
{
    if ks.len() > 0 {
        lemma_reselected_calmer(s, ks.drop_last(), rules, peers);
    }
}

proof fn lemma_commits_calmer(d: Dispatched, ps: Seq<Seq<u8>>, now: Timestamp)
    requires
        d.list.wants.dom().finite(),
    ensures
        calmer(d.list.wants, d.commits(ps, now).list.wants),
    decreases ps.len(),
{
    if ps.len() > 0 {
        lemma_commits_calmer(d, ps.drop_last(), now);
    }
}

/// A source with a free slot has one, and is one of the sources.
proof fn lemma_free_source(s: WantListView, l: Seq<(Tier, NodeId)>, rules: Rules)
    ensures
        match s.free_source(l, rules) {
            Some(n) => s.fetching_from(n) < rules.max_fetches_per_peer && exists|i: int|
                0 <= i < l.len() && (#[trigger] l[i]).1 == n,
            None => true,
        },
    decreases l.len(),
{
    if l.len() > 0 {
        let t = l.drop_last();
        lemma_free_source(s, t, rules);
        match s.free_source(t, rules) {
            Some(n) => {
                let i = choose|i: int| 0 <= i < t.len() && (#[trigger] t[i]).1 == n;
                assert(l[i].1 == n);
            },
            None => {
                assert(l[l.len() - 1] == l.last());
            },
        }
    }
}

proof fn lemma_fetches_limited(
    d: Dispatched,
    from: Wants,
    ks: Seq<((Tier, NodeId), Seq<u8>)>,
    now: Timestamp,
    rules: Rules,
    peers: Map<NodeId, Tier>,
    node: NodeId,
)
    requires
        d.list.wants.dom().finite(),
    ensures
        ({
            let r = d.fetches(from, ks, now, rules, peers);
            &&& r.list.wants.dom() == d.list.wants.dom()
            &&& r.list.fetching() <= larger(
                d.list.fetching(),
                rules.max_fetches_per_folder as nat,
            )
            &&& r.list.fetching_from(node) <= larger(
                d.list.fetching_from(node),
                rules.max_fetches_per_peer as nat,
            )
        }),
    decreases ks.len(),
{
    if ks.len() > 0 {
        lemma_fetches_limited(d, from, ks.drop_last(), now, rules, peers, node);
        let b = d.fetches(from, ks.drop_last(), now, rules, peers);
        let r = d.fetches(from, ks, now, rules, peers);
        let path = ks.last().1;
        let sources = selected(from[path], rules, peers)->Sources_0;
        lemma_free_source(b.list, sources, rules);
        if b.list.wants.contains_key(path) {
            let wanted = WantView { state: WantState::Wanted, ..b.list.wants[path] };
            lemma_put_counts(b.list, path, wanted, node);
            match b.list.free_source(sources, rules) {
                Some(n) => {
                    let w = WantView {
                        state: WantState::Fetching {
                            from: n,
                            deadline: now.plus(crate::time::FETCH_STALL_NANOS as int),
                        },
                        ..b.list.wants[path]
                    };
                    lemma_put_counts(b.list, path, w, node);
                },
                None => {},
            }
        }
        assert(r.list.wants.dom() =~= d.list.wants.dom());
    }
}

/// Dispatching starts no more fetches than the limits for the folder and for a peer allow.
pub proof fn law_fetch_limits(
    s: WantListView,
    now: Timestamp,
    rules: Rules,
    peers: Map<NodeId, Tier>,
    node: NodeId,
)
    requires
        s.wants.dom().finite(),
    ensures
        s.dispatched(now, rules, peers).list.fetching() <= larger(
            s.fetching(),
            rules.max_fetches_per_folder as nat,
        ),
        s.dispatched(now, rules, peers).list.fetching_from(node) <= larger(
            s.fetching_from(node),
            rules.max_fetches_per_peer as nat,
        ),
{
    let r = s.reselected(s.wants, s.paths(), rules, peers);
    lemma_reselected_calmer(s, s.paths(), rules, peers);
    lemma_calmer_counts(s, r, node);
    let d = Dispatched { list: r, steps: Seq::empty() };
    let ks = in_order(fetch_keys(s.wants, rules, peers));
    lemma_fetches_limited(d, s.wants, ks, now, rules, peers, node);
    let f = s.fetch_phase(now, rules, peers);
    lemma_commits_calmer(f, f.list.commit_order(), now);
    lemma_calmer_counts(f.list, s.dispatched(now, rules, peers).list, node);
}

// ---- the order of commits ---------------------------------------------------

/// Whether `b` wants nothing but what `a` wants, entry for entry.
spec fn narrower(a: Wants, b: Wants) -> bool {
    forall|p: Seq<u8>| #[trigger]
        b.contains_key(p) ==> a.contains_key(p) && b[p].entry == a[p].entry
}

proof fn lemma_narrower_gate(a: Wants, b: Wants, w: WantView)
    requires
        narrower(a, b),
        gated(b, w),
    ensures
        gated(a, w),
{
    if w.entry.deleted {
        let p = choose|p: Seq<u8>| #[trigger]
            b.contains_key(p) && b[p].entry.deleted && ancestor(w.entry.path, b[p].entry.path);
        assert(a.contains_key(p) && a[p].entry.deleted && ancestor(
            w.entry.path,
            a[p].entry.path,
        ));
    } else {
        let p = choose|p: Seq<u8>| #[trigger]
            b.contains_key(p) && b[p].makes_dir() && ancestor(b[p].entry.path, w.entry.path);
        assert(a.contains_key(p) && a[p].makes_dir() && ancestor(a[p].entry.path, w.entry.path));
    }
}

/// Whether no want that some steps commit or take into the index has to wait for anything in the
/// list.
pub open spec fn commits_in_order(d: Dispatched) -> bool {
    forall|i: int|
        0 <= i < d.steps.len() ==> match #[trigger] d.steps[i] {
            WantStepView::Fetch { path, version, from } => true,
            WantStepView::Commit(w) => !gated(d.list.wants, w),
            WantStepView::Adopt(w) => !gated(d.list.wants, w),
        }
}

proof fn lemma_commits_in_order(d: Dispatched, ps: Seq<Seq<u8>>, now: Timestamp)
    requires
        commits_in_order(d),
    ensures
        commits_in_order(d.commits(ps, now)),
    decreases ps.len(),
{
    if ps.len() > 0 {
        lemma_commits_in_order(d, ps.drop_last(), now);
        let b = d.commits(ps.drop_last(), now);
        let r = d.commits(ps, now);
        assert(narrower(b.list.wants, r.list.wants));
        assert forall|i: int| 0 <= i < r.steps.len() implies match #[trigger] r.steps[i] {
            WantStepView::Fetch { path, version, from } => true,
            WantStepView::Commit(w) => !gated(r.list.wants, w),
            WantStepView::Adopt(w) => !gated(r.list.wants, w),
        } by {
            if i < b.steps.len() {
                assert(b.steps[i] == r.steps[i]);
            }
            match r.steps[i] {
                WantStepView::Fetch { path, version, from } => {},
                WantStepView::Commit(w) => {
                    if gated(r.list.wants, w) {
                        lemma_narrower_gate(b.list.wants, r.list.wants, w);
                    }
                },
                WantStepView::Adopt(w) => {
                    if gated(r.list.wants, w) {
                        lemma_narrower_gate(b.list.wants, r.list.wants, w);
                    }
                },
            }
        }
    }
}

proof fn lemma_fetches_only_fetch(
    d: Dispatched,
    from: Wants,
    ks: Seq<((Tier, NodeId), Seq<u8>)>,
    now: Timestamp,
    rules: Rules,
    peers: Map<NodeId, Tier>,
)
    requires
        forall|i: int| 0 <= i < d.steps.len() ==> (#[trigger] d.steps[i]) is Fetch,
    ensures
        forall|i: int|
            0 <= i < d.fetches(from, ks, now, rules, peers).steps.len() ==> (
            #[trigger] d.fetches(from, ks, now, rules, peers).steps[i]) is Fetch,
    decreases ks.len(),
{
    if ks.len() > 0 {
        lemma_fetches_only_fetch(d, from, ks.drop_last(), now, rules, peers);
    }
}

/// Nothing is committed that has to wait: no creation while a directory above it is still to be
/// created, and no deletion of a directory while something in it is still to be deleted.
pub proof fn law_commits_in_order(
    s: WantListView,
    now: Timestamp,
    rules: Rules,
    peers: Map<NodeId, Tier>,
)
    ensures
        commits_in_order(s.dispatched(now, rules, peers)),
{
    let d0 = Dispatched {
        list: s.reselected(s.wants, s.paths(), rules, peers),
        steps: Seq::empty(),
    };
    lemma_fetches_only_fetch(
        d0,
        s.wants,
        in_order(fetch_keys(s.wants, rules, peers)),
        now,
        rules,
        peers,
    );
    let f = s.fetch_phase(now, rules, peers);
    assert(commits_in_order(f));
    lemma_commits_in_order(f, f.list.commit_order(), now);
}

// ---- sources ----------------------------------------------------------------

/// Whether a step asks a connected, allowed source for the version that is wanted at its path.
pub open spec fn fetch_is_allowed(
    step: WantStepView,
    from_list: Wants,
    rules: Rules,
    peers: Map<NodeId, Tier>,
) -> bool {
    match step {
        WantStepView::Fetch { path, version, from } => {
            &&& from_list.contains_key(path)
            &&& from_list[path].needs_fetch()
            &&& version == from_list[path].entry.version
            &&& from_list[path].sources.contains(from)
            &&& !from_list[path].excluded.contains(from)
            &&& peers.contains_key(from)
            &&& peers[from].carries(rules, from_list[path].entry.size)
        },
        _ => true,
    }
}

/// Finitely many nodes may be asked.
pub proof fn lemma_allowed_finite(w: WantView, rules: Rules, peers: Map<NodeId, Tier>)
    requires
        peers.dom().finite(),
    ensures
        allowed(w, rules, peers).finite(),
        candidates(w, peers).finite(),
{
    let f = |n: NodeId| (peers[n], n);
    peers.dom().lemma_map_finite(f);
    let m = peers.dom().map(f);
    assert forall|k: (Tier, NodeId)| #[trigger] candidates(w, peers).contains(k) implies m.contains(
        k,
    ) by {
        assert(peers.dom().contains(k.1));
        assert(f(k.1) == k);
    }
    vstd::set_lib::lemma_set_subset_finite(m, candidates(w, peers));
    assert forall|k: (Tier, NodeId)| #[trigger]
        allowed(w, rules, peers).contains(k) implies m.contains(k) by {
        assert(candidates(w, peers).contains(k));
    }
    vstd::set_lib::lemma_set_subset_finite(m, allowed(w, rules, peers));
}

proof fn lemma_fetches_allowed(
    d: Dispatched,
    from: Wants,
    ks: Seq<((Tier, NodeId), Seq<u8>)>,
    now: Timestamp,
    rules: Rules,
    peers: Map<NodeId, Tier>,
)
    requires
        peers.dom().finite(),
        forall|i: int|
            0 <= i < ks.len() ==> fetch_keys(from, rules, peers).contains(#[trigger] ks[i]),
        forall|i: int|
            0 <= i < d.steps.len() ==> fetch_is_allowed(#[trigger] d.steps[i], from, rules, peers),
    ensures
        ({
            let r = d.fetches(from, ks, now, rules, peers);
            forall|i: int|
                0 <= i < r.steps.len() ==> fetch_is_allowed(
                    #[trigger] r.steps[i],
                    from,
                    rules,
                    peers,
                )
        }),
    decreases ks.len(),
{
    if ks.len() > 0 {
        let t = ks.drop_last();
        assert forall|i: int| 0 <= i < t.len() implies fetch_keys(from, rules, peers).contains(
            #[trigger] t[i],
        ) by {
            assert(fetch_keys(from, rules, peers).contains(ks[i]));
        }
        lemma_fetches_allowed(d, from, t, now, rules, peers);
        let b = d.fetches(from, t, now, rules, peers);
        let r = d.fetches(from, ks, now, rules, peers);
        let path = ks.last().1;
        assert(fetch_keys(from, rules, peers).contains(ks[ks.len() - 1]));
        let w = from[path];
        let sources = selected(w, rules, peers)->Sources_0;
        lemma_allowed_finite(w, rules, peers);
        lemma_order_facts(allowed(w, rules, peers));
        lemma_free_source(b.list, sources, rules);
        assert forall|i: int| 0 <= i < r.steps.len() implies fetch_is_allowed(
            #[trigger] r.steps[i],
            from,
            rules,
            peers,
        ) by {
            if i < b.steps.len() {
                assert(fetch_is_allowed(b.steps[i], from, rules, peers));
            } else {
                let n = b.list.free_source(sources, rules)->0;
                let j = choose|j: int| 0 <= j < sources.len() && (#[trigger] sources[j]).1 == n;
                assert(allowed(w, rules, peers).contains(sources[j]));
                assert(candidates(w, peers).contains(sources[j]));
            }
        }
    }
}

proof fn lemma_commits_fetch_nothing(d: Dispatched, ps: Seq<Seq<u8>>, now: Timestamp, i: int)
    requires
        0 <= i < d.commits(ps, now).steps.len(),
    ensures
        d.commits(ps, now).steps.len() >= d.steps.len(),
        i < d.steps.len() ==> d.commits(ps, now).steps[i] == d.steps[i],
        i >= d.steps.len() ==> !(d.commits(ps, now).steps[i] is Fetch),
    decreases ps.len(),
{
    if ps.len() > 0 {
        let b = d.commits(ps.drop_last(), now);
        if i < b.steps.len() {
            lemma_commits_fetch_nothing(d, ps.drop_last(), now, i);
        } else if b.steps.len() > 0 {
            lemma_commits_fetch_nothing(d, ps.drop_last(), now, 0);
        } else {
            lemma_steps_grow(d, ps.drop_last(), now);
        }
    }
}

proof fn lemma_steps_grow(d: Dispatched, ps: Seq<Seq<u8>>, now: Timestamp)
    ensures
        d.commits(ps, now).steps.len() >= d.steps.len(),
    decreases ps.len(),
{
    if ps.len() > 0 {
        lemma_steps_grow(d, ps.drop_last(), now);
    }
}

/// Only connected members that announced the wanted version, did not serve other content before,
/// and are reached on a tier that carries the file are asked for it.
pub proof fn law_fetches_are_allowed(
    s: WantListView,
    now: Timestamp,
    rules: Rules,
    peers: Map<NodeId, Tier>,
)
    requires
        s.wants.dom().finite(),
        peers.dom().finite(),
    ensures
        ({
            let r = s.dispatched(now, rules, peers);
            forall|i: int|
                0 <= i < r.steps.len() ==> fetch_is_allowed(
                    #[trigger] r.steps[i],
                    s.wants,
                    rules,
                    peers,
                )
        }),
{
    let keys = fetch_keys(s.wants, rules, peers);
    lemma_fetch_keys_finite(s.wants, rules, peers);
    lemma_order_facts(keys);
    let d0 = Dispatched {
        list: s.reselected(s.wants, s.paths(), rules, peers),
        steps: Seq::empty(),
    };
    lemma_fetches_allowed(d0, s.wants, in_order(keys), now, rules, peers);
    let f = s.fetch_phase(now, rules, peers);
    let r = s.dispatched(now, rules, peers);
    assert forall|i: int| 0 <= i < r.steps.len() implies fetch_is_allowed(
        #[trigger] r.steps[i],
        s.wants,
        rules,
        peers,
    ) by {
        lemma_commits_fetch_nothing(f, f.list.commit_order(), now, i);
        if i < f.steps.len() {
            assert(fetch_is_allowed(f.steps[i], s.wants, rules, peers));
        }
    }
}

/// Finitely many wants can be fetched.
pub proof fn lemma_fetch_keys_finite(m: Wants, rules: Rules, peers: Map<NodeId, Tier>)
    requires
        m.dom().finite(),
    ensures
        fetch_keys(m, rules, peers).finite(),
{
    let f = |p: Seq<u8>| (selected(m[p], rules, peers)->Sources_0[0], p);
    m.dom().lemma_map_finite(f);
    let s = m.dom().map(f);
    assert forall|k: ((Tier, NodeId), Seq<u8>)| #[trigger]
        fetch_keys(m, rules, peers).contains(k) implies s.contains(k) by {
        assert(m.dom().contains(k.1));
        assert(f(k.1) == k);
    }
    vstd::set_lib::lemma_set_subset_finite(s, fetch_keys(m, rules, peers));
}

// ---- single steps -----------------------------------------------------------

/// Once deadlines that have passed are dealt with, none has passed.
pub proof fn law_expire_clears(s: WantListView, now: Timestamp, p: Seq<u8>)
    requires
        s.wants.dom().finite(),
    ensures
        ({
            let t = s.with_states(
                overdue_among(s.wants, s.paths(), now),
                WantState::Wanted,
            );
            t.wants.contains_key(p) && t.wants[p].state.due() is Some ==> (
            t.wants[p].state.due()->0).0 > now.0
        }),
{
    let overdue = overdue_among(s.wants, s.paths(), now);
    lemma_order_facts(s.wants.dom());
    lemma_overdue(s.wants, s.paths(), now, p);
    lemma_with_states(s, overdue, WantState::Wanted, p);
}

proof fn lemma_overdue(m: Wants, ks: Seq<Seq<u8>>, now: Timestamp, p: Seq<u8>)
    ensures
        overdue_among(m, ks, now).contains(p) <==> ks.contains(p) && m[p].state.due() is Some && (
        m[p].state.due()->0).0 <= now.0,
    decreases ks.len(),
{
    if ks.len() > 0 {
        let t = ks.drop_last();
        lemma_overdue(m, t, now, p);
        assert(ks =~= t.push(ks.last()));
        let o = overdue_among(m, t, now);
        assert(ks.contains(p) <==> t.contains(p) || p == ks.last()) by {
            if t.contains(p) {
                let i = choose|i: int| 0 <= i < t.len() && t[i] == p;
                assert(ks[i] == p);
            }
            if p == ks.last() {
                assert(ks[ks.len() - 1] == p);
            }
        }
        let q = o.push(ks.last());
        assert(q.contains(p) <==> o.contains(p) || p == ks.last()) by {
            if o.contains(p) {
                let i = choose|i: int| 0 <= i < o.len() && o[i] == p;
                assert(q[i] == p);
            }
            if p == ks.last() {
                assert(q[q.len() - 1] == p);
            }
        }
    }
}

/// Wants in some state, path by path.
pub proof fn lemma_with_states(s: WantListView, ps: Seq<Seq<u8>>, state: WantState, p: Seq<u8>)
    ensures
        s.with_states(ps, state).wants.contains_key(p) <==> s.wants.contains_key(p),
        s.wants.contains_key(p) ==> s.with_states(ps, state).wants[p] == if ps.contains(p) {
            WantView { state, ..s.wants[p] }
        } else {
            s.wants[p]
        },
    decreases ps.len(),
{
    if ps.len() > 0 {
        let t = ps.drop_last();
        lemma_with_states(s, t, state, p);
        assert(ps =~= t.push(ps.last()));
        assert(ps.contains(p) <==> t.contains(p) || p == ps.last()) by {
            if t.contains(p) {
                let i = choose|i: int| 0 <= i < t.len() && t[i] == p;
                assert(ps[i] == p);
            }
            if p == ps.last() {
                assert(ps[ps.len() - 1] == p);
            }
        }
    }
}

/// A want gives up after the second hash mismatch, and a source that served one is not asked
/// again.
pub proof fn law_mismatches(w: WantView, rules: Rules, peers: Map<NodeId, Tier>, k: (Tier, NodeId))
    ensures
        w.mismatches >= 1 ==> w.reported(FetchReport::HashMismatch).state == WantState::GaveUp,
        w.mismatches == 0 ==> w.reported(FetchReport::HashMismatch).state == WantState::Wanted,
        w.state is Fetching && k.1 == w.state->Fetching_from ==> !allowed(
            w.reported(FetchReport::HashMismatch),
            rules,
            peers,
        ).contains(k),
{
}

/// A source that does not have the content any more is asked again only after it announced the
/// version.
pub proof fn law_not_available(
    s: WantListView,
    path: Seq<u8>,
    version: Vector,
    rules: Rules,
    peers: Map<NodeId, Tier>,
    k: (Tier, NodeId),
)
    requires
        s.wants_version(path, version),
        s.wants[path].state is Fetching,
        k.1 == s.wants[path].state->Fetching_from,
    ensures
        ({
            let t = s.reported(path, version, FetchReport::NotAvailable);
            &&& !candidates(t.wants[path], peers).contains(k)
            &&& t.announced(path, version, k.1).wants[path].sources.contains(k.1)
        }),
{
}

/// The list stays well formed: wants stand under their paths.
pub proof fn law_list_well_formed(
    s: WantListView,
    item: ItemView,
    received: EntryView,
    batch: BatchId,
    source: NodeId,
    seq_high: u64,
    path: Seq<u8>,
    version: Vector,
    outcome: FetchReport,
    w: WantView,
)
    requires
        s.well_formed(),
    ensures
        s.inserted(item, received, batch, source, seq_high).well_formed(),
        s.announced(path, version, source).well_formed(),
        s.reported(path, version, outcome).well_formed(),
        s.restored(w).well_formed(),
        s.removed(path).well_formed(),
        s.with_state(path, w.state).well_formed(),
{
}

/// An item that is let in ends up wanted: its version, with its source named; and what is refused
/// leaves the list as it was.
pub proof fn law_insertion(
    s: WantListView,
    item: ItemView,
    received: EntryView,
    batch: BatchId,
    source: NodeId,
    seq_high: u64,
)
    ensures
        ({
            let t = s.inserted(item, received, batch, source, seq_high);
            let path = item.entry.path;
            if s.refuses(item) {
                t == s
            } else {
                t.wants.contains_key(path) && t.wants[path].entry.version == item.entry.version
                    && t.wants[path].sources.contains(source)
            }
        }),
{
}

/// After a restart nothing is in the host's hands: every want that was is wanted again.
pub proof fn law_restart_settles(s: WantListView, p: Seq<u8>)
    requires
        s.well_formed(),
    ensures
        ({
            let t = s.restarted_among(s.paths());
            &&& t.wants.contains_key(p) <==> s.wants.contains_key(p)
            &&& s.wants.contains_key(p) ==> t.wants[p] == (WantView {
                state: s.wants[p].state.settled(),
                fetched: false,
                ..s.wants[p]
            })
        }),
{
    lemma_order_facts(s.wants.dom());
    lemma_restarted(s, s.paths(), p);
}

proof fn lemma_restarted(s: WantListView, ks: Seq<Seq<u8>>, p: Seq<u8>)
    requires
        s.well_formed(),
        ks.no_duplicates(),
        forall|i: int| 0 <= i < ks.len() ==> s.wants.contains_key(#[trigger] ks[i]),
    ensures
        ({
            let t = s.restarted_among(ks);
            &&& t.wants.contains_key(p) <==> s.wants.contains_key(p)
            &&& s.wants.contains_key(p) ==> t.wants[p] == if ks.contains(p) {
                WantView { state: s.wants[p].state.settled(), fetched: false, ..s.wants[p] }
            } else {
                s.wants[p]
            }
        }),
    decreases ks.len(),
{
    if ks.len() > 0 {
        let t = ks.drop_last();
        let x = ks.last();
        assert forall|i: int| 0 <= i < t.len() implies s.wants.contains_key(#[trigger] t[i]) by {
            assert(s.wants.contains_key(ks[i]));
        }
        lemma_restarted(s, t, p);
        lemma_restarted(s, t, x);
        lemma_take_contains(ks, ks.len() - 1, p);
        assert(ks.take(ks.len() - 1) =~= t);
        assert(ks.take(ks.len() as int) =~= ks);
        assert(s.wants.contains_key(ks[ks.len() - 1]));
        assert(!t.contains(x)) by {
            if t.contains(x) {
                let i = choose|i: int| 0 <= i < t.len() && t[i] == x;
                assert(ks[i] == ks[ks.len() - 1]);
            }
        }
    }
}

/// A deadline is dealt with once it has been reached, and not before.
pub proof fn law_overdue_exactly(s: WantListView, now: Timestamp, p: Seq<u8>)
    requires
        s.wants.dom().finite(),
        s.wants.contains_key(p),
    ensures
        overdue_among(s.wants, s.paths(), now).contains(p) <==> s.wants[p].state.due() is Some && (
        s.wants[p].state.due()->0).0 <= now.0,
{
    lemma_order_facts(s.wants.dom());
    assert(s.wants.dom().contains(p));
    lemma_overdue_exactly(s.wants, s.paths(), now, p);
}

proof fn lemma_overdue_exactly(m: Wants, ks: Seq<Seq<u8>>, now: Timestamp, p: Seq<u8>)
    ensures
        overdue_among(m, ks, now).contains(p) <==> ks.contains(p) && m[p].state.due() is Some && (
        m[p].state.due()->0).0 <= now.0,
    decreases ks.len(),
{
    if ks.len() > 0 {
        let t = ks.drop_last();
        lemma_overdue_exactly(m, t, now, p);
        let a = overdue_among(m, t, now);
        let b = overdue_among(m, ks, now);
        assert(ks.contains(p) <==> t.contains(p) || ks.last() == p) by {
            if ks.contains(p) {
                let i = choose|i: int| 0 <= i < ks.len() && ks[i] == p;
                if i < t.len() {
                    assert(t[i] == p);
                }
            }
            if t.contains(p) {
                let i = choose|i: int| 0 <= i < t.len() && t[i] == p;
                assert(ks[i] == p);
            }
            if ks.last() == p {
                assert(ks[ks.len() - 1] == p);
            }
        }
        if b != a {
            assert(b == a.push(ks.last()));
            assert(b[b.len() - 1] == ks.last());
            if a.contains(p) {
                let i = choose|i: int| 0 <= i < a.len() && a[i] == p;
                assert(b[i] == p);
            }
            if b.contains(p) && p != ks.last() {
                let i = choose|i: int| 0 <= i < b.len() && b[i] == p;
                assert(a[i] == p);
            }
        }
    }
}

/// Progress of a fetch puts its deadline off, and changes nothing else of the want.
pub proof fn law_progress_extends(
    s: WantListView,
    now: Timestamp,
    path: Seq<u8>,
    version: Vector,
)
    requires
        s.wants_version(path, version),
        s.wants[path].state is Fetching,
    ensures
        ({
            let w = s.progressed(now, path, version).wants[path];
            &&& w.state is Fetching
            &&& w.state->Fetching_from == s.wants[path].state->Fetching_from
            &&& w.state.due() == Some(now.plus(FETCH_STALL_NANOS as int))
            &&& w == (WantView { state: w.state, ..s.wants[path] })
        }),
{
}

} // verus!
