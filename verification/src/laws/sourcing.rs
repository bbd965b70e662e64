//! Where content is fetched from, and what a want goes through until it is there.

use crate::batch::{ApplyMode, ItemView};
use crate::engine_view::without_peer;
use crate::entry::EntryView;
use crate::folder_view::{FetchedView, FolderView};
use crate::id::{BatchId, NodeId};
use crate::laws::counting::stands;
use crate::laws::want::{
    fetching_from_set, fetching_set, lemma_allowed_finite, lemma_counts_are_sets,
    lemma_fetch_keys_finite, lemma_with_states,
};
use crate::order::{in_order, lemma_order_facts, Ordered};
use crate::rules::Rules;
use crate::time::Timestamp;
use crate::version::{counter_of, Vector};
use crate::want::{
    allowed, candidates, deadline_among, fetch_keys, overdue_among, seeks, selected, served_among,
    Dispatched, FetchReport, SelectionView, Tier, WantListView, WantState, WantStepView, WantView,
    Wants,
};
use vstd::prelude::*;

verus! {

// ---- which source -----------------------------------------------------------

/// Whether a file of some size may be fetched on a tier: over the local network always, over a
/// direct or a relayed path within its limit.
pub open spec fn fits(tier: Tier, rules: Rules, size: u64) -> bool {
    match tier {
        Tier::Lan => true,
        Tier::Direct => size <= rules.direct_limit,
        Tier::Relay => size <= rules.relay_limit,
    }
}

/// Whether a node may be asked for a want: it announced the version, has not served anything else
/// for it, and is connected.
pub open spec fn askable(w: WantView, peers: Map<NodeId, Tier>, n: NodeId) -> bool {
    w.sources.contains(n) && !w.excluded.contains(n) && peers.contains_key(n)
}

/// How good a tier is: the local network before a direct path before a relayed one.
pub open spec fn goodness(tier: Tier) -> int {
    match tier {
        Tier::Lan => 2,
        Tier::Direct => 1,
        Tier::Relay => 0,
    }
}

/// Where a want can be fetched from: from no one if no node may be asked; from no one yet if none
/// is reached on a tier that the file fits, and then the tier that is named is the worst one that
/// it fits; else from every node that may be asked on a tier that it fits, the better tiers first,
/// and on one tier in the order of nodes.
pub proof fn law_sources(w: WantView, rules: Rules, peers: Map<NodeId, Tier>)
    requires
        peers.dom().finite(),
    ensures
        match selected(w, rules, peers) {
            SelectionView::NoSource => forall|n: NodeId| !#[trigger] askable(w, peers, n),
            SelectionView::Deferred(need) => {
                &&& exists|n: NodeId| #[trigger] askable(w, peers, n)
                &&& forall|n: NodeId| #[trigger]
                    askable(w, peers, n) ==> !fits(peers[n], rules, w.entry.size)
                &&& fits(need, rules, w.entry.size)
                &&& need != Tier::Relay ==> !fits(Tier::Relay, rules, w.entry.size)
                &&& need == Tier::Lan ==> !fits(Tier::Direct, rules, w.entry.size)
            },
            SelectionView::Sources(l) => {
                &&& l.len() > 0
                &&& forall|n: NodeId, t: Tier| #[trigger]
                    l.contains((t, n)) <==> askable(w, peers, n) && peers[n] == t && fits(
                        t,
                        rules,
                        w.entry.size,
                    )
                &&& forall|i: int, j: int|
                    0 <= i < j < l.len() ==> goodness((#[trigger] l[i]).0) > goodness(
                        (#[trigger] l[j]).0,
                    ) || (l[i].0 == l[j].0 && l[i].1.before(l[j].1))
            },
        },
{
    lemma_allowed_finite(w, rules, peers);
    let c = candidates(w, peers);
    let a = allowed(w, rules, peers);
    if c.len() == 0 {
        assert(c =~= Set::empty());
        assert forall|n: NodeId| !#[trigger] askable(w, peers, n) by {
            if askable(w, peers, n) {
                assert(c.contains((peers[n], n)));
            }
        }
    } else if a.len() == 0 {
        assert(a =~= Set::empty());
        let k = c.choose();
        assert(c.contains(k));
        assert(askable(w, peers, k.1));
        assert forall|n: NodeId| #[trigger] askable(w, peers, n) implies !fits(
            peers[n],
            rules,
            w.entry.size,
        ) by {
            assert(!a.contains((peers[n], n)));
        }
    } else {
        lemma_order_facts(a);
        let l = in_order(a);
        assert forall|n: NodeId, t: Tier| #[trigger] l.contains((t, n)) <==> askable(w, peers, n)
            && peers[n] == t && fits(t, rules, w.entry.size) by {
            assert(a.contains((t, n)) <==> l.contains((t, n)));
        }
        assert forall|i: int, j: int| 0 <= i < j < l.len() implies goodness(
            (#[trigger] l[i]).0,
        ) > goodness((#[trigger] l[j]).0) || (l[i].0 == l[j].0 && l[i].1.before(l[j].1)) by {
            assert(l[i].before(l[j]));
        }
    }
}

/// How many fetches run is how many wants are being fetched; from a node, how many from it.
pub proof fn law_running_fetches_are_counted(s: WantListView, node: NodeId)
    requires
        s.wants.dom().finite(),
    ensures
        s.fetching() == s.wants.dom().filter(
            |p: Seq<u8>| s.wants[p].state is Fetching,
        ).len(),
        s.fetching_from(node) == s.wants.dom().filter(
            |p: Seq<u8>| s.wants[p].state is Fetching && s.wants[p].state->Fetching_from == node,
        ).len(),
{
    lemma_order_facts(s.wants.dom());
    let ks = s.paths();
    lemma_counts_are_sets(s.wants, ks, node);
    assert(ks.to_set() =~= s.wants.dom());
    assert(fetching_set(s.wants, ks) =~= s.wants.dom().filter(
        |p: Seq<u8>| s.wants[p].state is Fetching,
    ));
    assert(fetching_from_set(s.wants, ks, node) =~= s.wants.dom().filter(
        |p: Seq<u8>| s.wants[p].state is Fetching && s.wants[p].state->Fetching_from == node,
    ));
}

/// Of the sources of a want the first with a free slot is asked: every one before it has as many
/// fetches running as a peer may have, and if none is asked, all have.
pub proof fn law_first_free_source(s: WantListView, l: Seq<(Tier, NodeId)>, rules: Rules)
    ensures
        match s.free_source(l, rules) {
            Some(n) => exists|i: int|
                0 <= i < l.len() && (#[trigger] l[i]).1 == n && s.fetching_from(n)
                    < rules.max_fetches_per_peer && forall|j: int|
                    0 <= j < i ==> s.fetching_from((#[trigger] l[j]).1)
                        >= rules.max_fetches_per_peer,
            None => forall|i: int|
                0 <= i < l.len() ==> s.fetching_from((#[trigger] l[i]).1)
                    >= rules.max_fetches_per_peer,
        },
    decreases l.len(),
{
    if l.len() > 0 {
        let t = l.drop_last();
        law_first_free_source(s, t, rules);
        match s.free_source(t, rules) {
            Some(n) => {
                let i = choose|i: int|
                    0 <= i < t.len() && (#[trigger] t[i]).1 == n && s.fetching_from(n)
                        < rules.max_fetches_per_peer && forall|j: int|
                        0 <= j < i ==> s.fetching_from((#[trigger] t[j]).1)
                            >= rules.max_fetches_per_peer;
                assert(l[i].1 == n);
                assert forall|j: int| 0 <= j < i implies s.fetching_from((#[trigger] l[j]).1)
                    >= rules.max_fetches_per_peer by {
                    assert(t[j] == l[j]);
                }
            },
            None => {
                assert forall|j: int| 0 <= j < t.len() implies s.fetching_from((#[trigger] l[j]).1)
                    >= rules.max_fetches_per_peer by {
                    assert(t[j] == l[j]);
                }
                let n = l.len() - 1;
                assert(l[n].1 == l.last().1);
            },
        }
    }
}

/// One want's turn at the slots: it gets one exactly if the folder has one left and one of its
/// sources has; then it is asked of the first such. Else it goes on being wanted.
pub proof fn law_one_turn(
    d: Dispatched,
    from: Wants,
    path: Seq<u8>,
    now: Timestamp,
    rules: Rules,
    peers: Map<NodeId, Tier>,
)
    requires
        d.list.wants.contains_key(path),
    ensures
        ({
            let l = selected(from[path], rules, peers)->Sources_0;
            let r = d.fetch(from, path, now, rules, peers);
            let n = d.list.free_source(l, rules);
            if d.list.fetching() < rules.max_fetches_per_folder && n is Some {
                &&& r.list.wants[path].state == (WantState::Fetching {
                    from: n->0,
                    deadline: now.plus(60_000_000_000),
                })
                &&& r.steps == d.steps.push(
                    WantStepView::Fetch {
                        path,
                        version: from[path].entry.version,
                        from: n->0,
                    },
                )
            } else {
                r.list.wants[path].state == WantState::Wanted && r.steps == d.steps
            }
        }),
        forall|p: Seq<u8>|
            p != path ==> (#[trigger] d.fetch(
                from,
                path,
                now,
                rules,
                peers,
            ).list.wants.contains_key(p)) == d.list.wants.contains_key(p) && d.fetch(
                from,
                path,
                now,
                rules,
                peers,
            ).list.wants[p] == d.list.wants[p],
{
}

/// Slots are handed out by the best source of each want, the better tiers first, then in the
/// order of paths; every want whose content is still to be fetched, that is not with the host and
/// has not given up, and that has a source, gets its turn, once.
pub proof fn law_turns_are_taken_in_order(s: Wants, rules: Rules, peers: Map<NodeId, Tier>)
    requires
        s.dom().finite(),
    ensures
        ({
            let ks = in_order(fetch_keys(s, rules, peers));
            &&& forall|p: Seq<u8>|
                (exists|i: int| 0 <= i < ks.len() && (#[trigger] ks[i]).1 == p) <==> (
                #[trigger] s.contains_key(p)) && s[p].mode == ApplyMode::Fetch && !s[p].fetched
                    && (s[p].state is Wanted || s[p].state is Deferred || s[p].state is NoSource)
                    && selected(s[p], rules, peers) is Sources
            &&& forall|i: int|
                0 <= i < ks.len() ==> (#[trigger] ks[i]).0 == selected(
                    s[ks[i].1],
                    rules,
                    peers,
                )->Sources_0[0]
            &&& forall|i: int, j: int|
                0 <= i < j < ks.len() ==> (#[trigger] ks[i]).1 != (#[trigger] ks[j]).1 && (
                goodness(ks[i].0.0) > goodness(ks[j].0.0) || (ks[i].0.0 == ks[j].0.0 && (
                ks[i].0.1.before(ks[j].0.1) || (ks[i].0.1 == ks[j].0.1 && ks[i].1.before(
                    ks[j].1,
                )))))
        }),
{
    lemma_fetch_keys_finite(s, rules, peers);
    let keys = fetch_keys(s, rules, peers);
    lemma_order_facts(keys);
    let ks = in_order(keys);
    assert forall|i: int| 0 <= i < ks.len() implies s.contains_key((#[trigger] ks[i]).1) && seeks(
        s[ks[i].1],
    ) && selected(s[ks[i].1], rules, peers) is Sources && ks[i].0 == selected(
        s[ks[i].1],
        rules,
        peers,
    )->Sources_0[0] by {
        assert(keys.contains(ks[i]));
    }
    assert forall|p: Seq<u8>|
        (exists|i: int| 0 <= i < ks.len() && (#[trigger] ks[i]).1 == p) <==> (
        #[trigger] s.contains_key(p)) && s[p].mode == ApplyMode::Fetch && !s[p].fetched && (
        s[p].state is Wanted || s[p].state is Deferred || s[p].state is NoSource) && selected(
            s[p],
            rules,
            peers,
        ) is Sources by {
        if s.contains_key(p) && seeks(s[p]) && selected(s[p], rules, peers) is Sources {
            let k = (selected(s[p], rules, peers)->Sources_0[0], p);
            assert(keys.contains(k));
            let i = choose|i: int| 0 <= i < ks.len() && ks[i] == k;
            assert(ks[i].1 == p);
        }
    }
    assert forall|i: int, j: int| 0 <= i < j < ks.len() implies (#[trigger] ks[i]).1 != (
    #[trigger] ks[j]).1 && (goodness(ks[i].0.0) > goodness(ks[j].0.0) || (ks[i].0.0 == ks[j].0.0
        && (ks[i].0.1.before(ks[j].0.1) || (ks[i].0.1 == ks[j].0.1 && ks[i].1.before(
        ks[j].1,
    ))))) by {
        assert(ks[i].before(ks[j]));
        Ordered::irreflexive(ks[i]);
    }
}

// ---- what becomes of a want -------------------------------------------------

/// A want for a new item is for its entry, as it was received and in the way it is to be applied;
/// its sources are the sender and the author; nothing has been tried yet.
pub proof fn law_new_want(
    item: ItemView,
    received: EntryView,
    batch: BatchId,
    source: NodeId,
    seq_high: u64,
)
    ensures
        ({
            let w = WantView::of_item(item, received, batch, source, seq_high);
            &&& w.entry == item.entry
            &&& w.received == received
            &&& w.mode == item.mode
            &&& w.conflict == item.conflict
            &&& w.batch == batch
            &&& w.source == source
            &&& w.seq_high == seq_high
            &&& forall|n: NodeId|
                w.sources.contains(n) <==> n == source || n == item.entry.modified_by
            &&& w.answered =~= Set::empty()
            &&& w.excluded =~= Set::empty()
            &&& w.mismatches == 0
            &&& !w.fetched
            &&& !w.restoring
            &&& w.state == WantState::Wanted
        }),
{
}

/// Whether a version holds everything another does.
pub open spec fn holds_all(a: Vector, b: Vector) -> bool {
    forall|n: NodeId| #[trigger] counter_of(b, n) <= counter_of(a, n)
}

/// An item that arrives at a path: the version that is wanted already gains a source; one that
/// holds everything that is wanted there and more takes its place; anything else is refused and
/// changes nothing; and where nothing is wanted, it is. No other path changes.
pub proof fn law_arrival(
    s: WantListView,
    item: ItemView,
    received: EntryView,
    batch: BatchId,
    source: NodeId,
    seq_high: u64,
    p: Seq<u8>,
)
    ensures
        ({
            let t = s.inserted(item, received, batch, source, seq_high);
            let path = item.entry.path;
            let old = s.wants[path];
            let fresh = WantView::of_item(item, received, batch, source, seq_high);
            &&& p != path ==> t.wants.contains_key(p) == s.wants.contains_key(p) && t.wants[p]
                == s.wants[p]
            &&& !s.wants.contains_key(path) ==> t.wants.contains_key(path) && t.wants[path]
                == fresh
            &&& s.wants.contains_key(path) ==> t.wants.contains_key(path) && t.wants[path] == if
                old.entry.version == item.entry.version {
                WantView {
                    sources: old.sources.insert(source),
                    answered: old.answered.remove(source),
                    ..old
                }
            } else if holds_all(item.entry.version, old.entry.version) && !holds_all(
                old.entry.version,
                item.entry.version,
            ) {
                fresh
            } else {
                old
            }
            &&& s.refuses(item) <==> s.wants.contains_key(path) && old.entry.version
                != item.entry.version && !(holds_all(item.entry.version, old.entry.version)
                && !holds_all(old.entry.version, item.entry.version))
        }),
{
    let a = item.entry.version;
    let b = s.wants[item.entry.path].entry.version;
    assert(crate::version::covers(a, b) <==> holds_all(a, b));
    assert(crate::version::covers(b, a) <==> holds_all(b, a));
}

/// A member that announces a version becomes a source of the want for it, and may be asked again
/// if it had answered that it has not got it; a want for another version, and every other want,
/// stays as it is.
pub proof fn law_announcement_names_a_source(
    s: WantListView,
    path: Seq<u8>,
    version: Vector,
    by: NodeId,
    p: Seq<u8>,
)
    ensures
        ({
            let t = s.announced(path, version, by);
            let w = s.wants[p];
            &&& t.wants.contains_key(p) == s.wants.contains_key(p)
            &&& s.wants.contains_key(p) ==> if p == path && w.entry.version == version {
                t.wants[p] =~= (WantView {
                    sources: w.sources.insert(by),
                    answered: w.answered.remove(by),
                    ..w
                })
            } else {
                t.wants[p] == w
            }
        }),
{
    let w = s.wants[path];
    if s.wants.contains_key(path) && w.sources.contains(by) && !w.answered.contains(by) {
        assert(w.sources.insert(by) =~= w.sources);
        assert(w.answered.remove(by) =~= w.answered);
    }
}

/// What a report on a fetch makes of the want. Content that arrived is at hand. A node that has not
/// got it is no source any more, and has answered. A node that served something else is not asked
/// again, and at the second time the want gives up. In the other cases it is wanted again, and
/// nothing else of it changes.
pub proof fn law_fetch_report(w: WantView, outcome: FetchReport)
    ensures
        ({
            let r = w.reported(outcome);
            match outcome {
                FetchReport::Done => r == (WantView {
                    fetched: true,
                    state: WantState::Wanted,
                    ..w
                }),
                FetchReport::NotAvailable => {
                    &&& r == (WantView {
                        sources: r.sources,
                        answered: r.answered,
                        state: WantState::Wanted,
                        ..w
                    })
                    &&& forall|n: NodeId|
                        r.sources.contains(n) <==> w.sources.contains(n) && !(w.state is Fetching
                            && w.state->Fetching_from == n)
                    &&& forall|n: NodeId|
                        r.answered.contains(n) <==> w.answered.contains(n) || (w.state is Fetching
                            && w.state->Fetching_from == n)
                },
                FetchReport::HashMismatch => {
                    &&& r == (WantView {
                        excluded: r.excluded,
                        mismatches: r.mismatches,
                        state: if w.mismatches >= 1 {
                            WantState::GaveUp
                        } else {
                            WantState::Wanted
                        },
                        ..w
                    })
                    &&& w.mismatches < 255 ==> r.mismatches == w.mismatches + 1
                    &&& w.mismatches == 255 ==> r.mismatches == 255
                    &&& forall|n: NodeId|
                        r.excluded.contains(n) <==> w.excluded.contains(n) || (w.state is Fetching
                            && w.state->Fetching_from == n)
                },
            }
        }),
{
}

/// A report on a fetch concerns the want for the version it names, and no other.
pub proof fn law_report_concerns_its_want(
    s: WantListView,
    now: Timestamp,
    path: Seq<u8>,
    version: Vector,
    outcome: FetchReport,
    p: Seq<u8>,
)
    ensures
        ({
            let t = s.reported(path, version, outcome);
            let u = s.progressed(now, path, version);
            &&& t.wants.contains_key(p) == s.wants.contains_key(p)
            &&& u.wants.contains_key(p) == s.wants.contains_key(p)
            &&& s.wants.contains_key(p) ==> t.wants[p] == if p == path && s.wants[p].entry.version
                == version {
                s.wants[p].reported(outcome)
            } else {
                s.wants[p]
            }
            &&& s.wants.contains_key(p) ==> u.wants[p] == if p == path && s.wants[p].entry.version
                == version && s.wants[p].state is Fetching {
                WantView {
                    state: WantState::Fetching {
                        from: s.wants[p].state->Fetching_from,
                        deadline: now.plus(60_000_000_000),
                    },
                    ..s.wants[p]
                }
            } else {
                s.wants[p]
            }
        }),
{
}

/// After a restart a want that was with the host, or waited for another, is wanted again, its
/// content is not at hand, and everything else of it is as it was.
pub proof fn law_restart_takes_wants_back(s: WantListView, w: WantView)
    ensures
        ({
            let t = s.restored(w);
            let x = t.wants[w.entry.path];
            &&& t.wants == s.wants.insert(w.entry.path, x)
            &&& x == (WantView { state: x.state, fetched: false, ..w })
            &&& w.state is Fetching || w.state is Committing || w.state is Blocked ==> x.state
                == WantState::Wanted
            &&& w.state is Wanted || w.state is GaveUp || w.state is NoSource || w.state is Deferred
                ==> x.state == w.state
        }),
{
}

/// When an operation of the host is overdue: never, unless it has a fetch or a commit in hand.
pub open spec fn overdue_at(w: WantView) -> Option<Timestamp> {
    match w.state {
        WantState::Fetching { from, deadline } => Some(deadline),
        WantState::Committing { deadline } => Some(deadline),
        _ => None,
    }
}

/// The next deadline of some wants is one of theirs, and none is earlier; there is none exactly if
/// none of them has one.
pub proof fn law_next_deadline(m: Wants, ks: Seq<Seq<u8>>)
    ensures
        match deadline_among(m, ks) {
            Some(t) => (exists|i: int|
                0 <= i < ks.len() && overdue_at(m[#[trigger] ks[i]]) == Some(t)) && forall|i: int|
                0 <= i < ks.len() && overdue_at(m[#[trigger] ks[i]]) is Some ==> t.0
                    <= (overdue_at(m[ks[i]])->0).0,
            None => forall|i: int| 0 <= i < ks.len() ==> overdue_at(m[#[trigger] ks[i]]) is None,
        },
    decreases ks.len(),
{
    if ks.len() > 0 {
        let t = ks.drop_last();
        law_next_deadline(m, t);
        assert forall|i: int| 0 <= i < t.len() implies t[i] == #[trigger] ks[i] by {}
        let z = ks.len() - 1;
        assert(ks[z] == ks.last());
        match deadline_among(m, t) {
            Some(d) => {
                let i = choose|i: int|
                    0 <= i < t.len() && overdue_at(m[#[trigger] t[i]]) == Some(d);
                assert(overdue_at(m[ks[i]]) == Some(d));
                assert forall|j: int|
                    0 <= j < t.len() && overdue_at(m[#[trigger] ks[j]]) is Some implies d.0
                    <= (overdue_at(m[ks[j]])->0).0 by {
                    assert(t[j] == ks[j]);
                }
            },
            None => {
                assert forall|j: int| 0 <= j < t.len() implies overdue_at(
                    m[#[trigger] ks[j]],
                ) is None by {
                    assert(t[j] == ks[j]);
                }
            },
        }
    }
}

/// A folder is next due when its window closes or the first deadline of a want passes, whichever
/// comes first; it is not due at all if it has neither.
pub proof fn law_due_is_the_earliest(f: FolderView)
    requires
        f.wants.wants.dom().finite(),
    ensures
        match f.due() {
            Some(t) => {
                &&& (f.window is Some && (f.window->0).end() == t) || exists|p: Seq<u8>|
                    #[trigger] f.wants.wants.contains_key(p) && overdue_at(f.wants.wants[p])
                        == Some(t)
                &&& f.window is Some ==> t.0 <= (f.window->0).end().0
                &&& forall|p: Seq<u8>| #[trigger]
                    f.wants.wants.contains_key(p) && overdue_at(f.wants.wants[p]) is Some ==> t.0
                        <= (overdue_at(f.wants.wants[p])->0).0
            },
            None => f.window is None && forall|p: Seq<u8>| #[trigger]
                f.wants.wants.contains_key(p) ==> overdue_at(f.wants.wants[p]) is None,
        },
{
    let m = f.wants.wants;
    lemma_order_facts(m.dom());
    let ks = f.wants.paths();
    law_next_deadline(m, ks);
    assert forall|p: Seq<u8>| #[trigger] m.contains_key(p) implies exists|i: int|
        0 <= i < ks.len() && ks[i] == p by {
        assert(m.dom().contains(p));
    }
    if deadline_among(m, ks) is Some {
        let d = deadline_among(m, ks)->0;
        let i = choose|i: int| 0 <= i < ks.len() && overdue_at(m[#[trigger] ks[i]]) == Some(d);
        assert(m.dom().contains(ks[i]));
        assert(m.contains_key(ks[i]));
    }
}

proof fn lemma_overdue_list(m: Wants, ks: Seq<Seq<u8>>, now: Timestamp, node: NodeId, p: Seq<u8>)
    ensures
        overdue_among(m, ks, now).contains(p) <==> ks.contains(p) && overdue_at(m[p]) is Some && (
        overdue_at(m[p])->0).0 <= now.0,
        served_among(m, ks, node).contains(p) <==> ks.contains(p) && m[p].state is Fetching
            && m[p].state->Fetching_from == node,
    decreases ks.len(),
{
    if ks.len() > 0 {
        let t = ks.drop_last();
        lemma_overdue_list(m, t, now, node, p);
        let a = overdue_among(m, t, now);
        let b = overdue_among(m, ks, now);
        let c = served_among(m, t, node);
        let d = served_among(m, ks, node);
        lemma_last(ks, p);
        lemma_pushed(a, b, ks.last(), p);
        lemma_pushed(c, d, ks.last(), p);
    }
}

proof fn lemma_last<A>(ks: Seq<A>, p: A)
    requires
        ks.len() > 0,
    ensures
        ks.contains(p) <==> ks.drop_last().contains(p) || ks.last() == p,
{
    let t = ks.drop_last();
    if ks.contains(p) {
        let i = choose|i: int| 0 <= i < ks.len() && ks[i] == p;
        if i < t.len() {
            assert(t[i] == p);
        }
    }
    if t.contains(p) {
        let i = choose|i: int| 0 <= i < t.len() && t[i] == p;
        assert(ks[i] == p);
    }
    assert(ks[ks.len() - 1] == ks.last());
}

proof fn lemma_pushed<A>(a: Seq<A>, b: Seq<A>, x: A, p: A)
    requires
        b == a || b == a.push(x),
    ensures
        b == a ==> b.contains(p) == a.contains(p),
        b == a.push(x) ==> (b.contains(p) <==> a.contains(p) || p == x),
{
    if b == a.push(x) {
        lemma_last(b, p);
        assert(b.drop_last() =~= a);
    }
}

/// What the host did not answer in time is wanted again, and so is what was being fetched from a
/// peer that went away; nothing else of any want changes.
pub proof fn law_taken_back_from_the_host(
    f: FolderView,
    now: Timestamp,
    node: NodeId,
    p: Seq<u8>,
)
    requires
        f.wants.wants.dom().finite(),
    ensures
        ({
            let m = f.wants.wants;
            let a = f.wants.with_states(
                overdue_among(m, f.wants.paths(), now),
                WantState::Wanted,
            ).wants;
            let b = without_peer(f, node);
            &&& a.contains_key(p) == m.contains_key(p)
            &&& b.wants.wants.contains_key(p) == m.contains_key(p)
            &&& b == (FolderView { wants: b.wants, ..f })
            &&& m.contains_key(p) ==> a[p] == if overdue_at(m[p]) is Some && (overdue_at(
                m[p],
            )->0).0 <= now.0 {
                WantView { state: WantState::Wanted, ..m[p] }
            } else {
                m[p]
            }
            &&& m.contains_key(p) ==> b.wants.wants[p] == if m[p].state is Fetching
                && m[p].state->Fetching_from == node {
                WantView { state: WantState::Wanted, ..m[p] }
            } else {
                m[p]
            }
        }),
{
    let m = f.wants.wants;
    let ks = f.wants.paths();
    lemma_order_facts(m.dom());
    lemma_overdue_list(m, ks, now, node, p);
    assert(m.dom().contains(p) <==> ks.contains(p));
    lemma_with_states(f.wants, overdue_among(m, ks, now), WantState::Wanted, p);
    lemma_with_states(f.wants, served_among(m, ks, node), WantState::Wanted, p);
}

/// Content that a revert asked for exists nowhere once every other member has answered that it has
/// not got it: then the want is gone and a live record becomes a tombstone that counts for
/// nothing. Until then the report only changes the want.
pub proof fn law_lost_content(
    f: FolderView,
    now: Timestamp,
    path: Seq<u8>,
    version: Vector,
    report: FetchReport,
)
    requires
        f.wants.wants.contains_key(path),
        f.wants.wants[path].entry.version == version,
    ensures
        ({
            let w = f.wants.wants[path];
            let g = f.fetched(now, path, version, report);
            let r = f.fetch_result(now, path, version, report);
            let gone = report == FetchReport::NotAvailable && w.restoring && forall|m: NodeId|
                #[trigger]
                f.members.contains(m) ==> m == f.index.own || w.answered.contains(m) || (
                w.state is Fetching && w.state->Fetching_from == m);
            if gone {
                &&& !g.wants.wants.contains_key(path)
                &&& r.state is None
                &&& r.unrecoverable is Some <==> stands(f.index, path)
                &&& stands(f.index, path) ==> {
                    &&& g.index.records.contains_key(path)
                    &&& g.index.records[path] == (r.unrecoverable->0).record
                    &&& g.index.records[path].entry.deleted
                    &&& g.index.exempt.contains(path)
                    &&& g.index.pending.contains_key(path)
                    &&& g.window == f.touched(now).window
                }
                &&& !stands(f.index, path) ==> g.index == f.index && g.window == f.window
            } else {
                &&& g == (FolderView { wants: g.wants, ..f })
                &&& g.wants.wants.contains_key(path)
                &&& g.wants.wants[path] == w.reported(report)
                &&& r == (FetchedView {
                    state: Some(w.reported(report).state),
                    unrecoverable: None,
                })
            }
        }),
{
    let w = f.wants.wants[path];
    law_fetch_report(w, report);
}

} // verus!
