//! What every operation keeps of a folder: a well-formed index whose sequence numbers tell records
//! apart, wants under their paths, and a quarantine in which everything is found again.

use crate::batch::{
    apply_set_of, classified, last_by_path, law_candidates_dominate, BatchView, ItemView,
};
use crate::brake::{verdict, weight, Verdict};
use crate::engine_view::{folder_step, plus_used, EngineView, EventView, FoldersStep, TickStep};
use crate::entry::{ContentHash, EntryView, Kind, Observed};
use crate::folder::{ApplyOutcome, DeferredReason, ScanState};
use crate::folder_view::{
    as_candidates, by_path, candidates_of, fallbacks_of, frozen_among, items_of, joined_statuses,
    kept, paired, path_keys, raws_for, raws_of, released_among, taken, thawed, CandidateView,
    DeferredView, FolderView, Groups, Receiving, Sorting, WithChanges, WithSteps,
};
use crate::id::{BatchId, FolderId, NodeId};
use crate::index::{IndexView, RevertedView};
use crate::laws::dispatch::{blocked_ready, lemma_placed};
use crate::laws::engine::{lemma_ids, lemma_schedule_all};
use crate::laws::arrival::{
    intact, law_denial_intact, law_hold_intact, law_initial_intact, law_join_intact,
    law_joins_intact, law_release_intact, law_return_intact,
};
use crate::laws::index::{
    law_adopted_numbered, law_adopted_well_formed, law_initial_numbered, law_initial_well_formed,
    law_observe_numbered, law_settling_numbered, law_settling_well_formed, law_written_numbered,
    law_written_well_formed, numbered_while,
};
use crate::order::{in_order, lemma_order_facts};
use crate::quarantine::{first_match, max_stamp, versions_in, HeldItemView};
use crate::time::Timestamp;
use crate::version::Vector;
use crate::want::{
    overdue_among, served_among, FetchReport, Tier, WantListView, WantState, WantStepView, WantView,
    Wants,
};
use vstd::prelude::*;

verus! {

/// Whether wants stand under their paths, and so do the entries they were received as, and none
/// waits for another while its content is still to be fetched.
pub open spec fn wants_filed(m: Wants) -> bool {
    &&& m.dom().finite()
    &&& forall|p: Seq<u8>| #[trigger]
        m.contains_key(p) ==> m[p].entry.path == p && m[p].received.path == p
    &&& blocked_ready(m)
}

/// What always holds of a folder.
pub open spec fn orderly(f: FolderView) -> bool {
    &&& f.index.well_formed()
    &&& numbered_while(f.index)
    &&& wants_filed(f.wants.wants)
    &&& intact(f.quarantine)
}

/// Whether items stand at the paths of the entries they were received as.
spec fn matched(pairs: Seq<(ItemView, EntryView)>) -> bool {
    forall|i: int| 0 <= i < pairs.len() ==> (#[trigger] pairs[i]).1.path == pairs[i].0.entry.path
}

spec fn all_matched(groups: Groups) -> bool {
    &&& groups.dom().finite()
    &&& forall|k: ((BatchId, NodeId), u64)| #[trigger]
        groups.contains_key(k) ==> matched(groups[k])
}

spec fn candidates_match(cs: Seq<CandidateView>) -> bool {
    forall|i: int| 0 <= i < cs.len() ==> (#[trigger] cs[i]).raw.path == cs[i].item.entry.path
}

/// A folder that was just joined is orderly.
pub proof fn law_initial_orderly(
    id: FolderId,
    rules: crate::rules::Rules,
    members: Set<NodeId>,
    own: NodeId,
    host: Seq<u8>,
)
    ensures
        orderly(FolderView::initial(id, rules, members, own, host)),
{
    law_initial_well_formed(own, host);
    law_initial_numbered(own, host);
    law_initial_intact();
}

// ---- letting in -------------------------------------------------------------

proof fn lemma_wanting_all(
    f: FolderView,
    pairs: Seq<(ItemView, EntryView)>,
    batch: BatchId,
    source: NodeId,
    seq_high: u64,
)
    requires
        orderly(f),
        matched(pairs),
    ensures
        orderly(f.wanting_all(pairs, batch, source, seq_high)),
    decreases pairs.len(),
{
    if pairs.len() > 0 {
        let t = pairs.drop_last();
        assert forall|i: int| 0 <= i < t.len() implies (#[trigger] t[i]).1.path
            == t[i].0.entry.path by {
            assert(t[i] == pairs[i]);
        }
        lemma_wanting_all(f, t, batch, source, seq_high);
        assert(pairs[pairs.len() - 1].1.path == pairs[pairs.len() - 1].0.entry.path);
    }
}

proof fn lemma_path_keys_finite(pairs: Seq<(ItemView, EntryView)>)
    ensures
        path_keys(pairs).finite(),
    decreases pairs.len(),
{
    if pairs.len() == 0 {
        assert(path_keys(pairs) =~= Set::empty());
    } else {
        let t = pairs.drop_last();
        lemma_path_keys_finite(t);
        let big = path_keys(t).insert((pairs.last().0.entry.path, (pairs.len() - 1) as u64));
        assert forall|k: (Seq<u8>, u64)| path_keys(pairs).contains(k) implies big.contains(k) by {
            if k.1 < t.len() {
                assert(t[k.1 as int] == pairs[k.1 as int]);
            }
        }
        assert(path_keys(pairs).subset_of(big));
        vstd::set_lib::lemma_set_subset_finite(big, path_keys(pairs));
    }
}

proof fn lemma_by_path(pairs: Seq<(ItemView, EntryView)>)
    requires
        matched(pairs),
    ensures
        matched(by_path(pairs)),
{
    lemma_path_keys_finite(pairs);
    lemma_order_facts(path_keys(pairs));
    let ks = in_order(path_keys(pairs));
    assert forall|i: int| 0 <= i < by_path(pairs).len() implies (#[trigger] by_path(
        pairs,
    )[i]).1.path == by_path(pairs)[i].0.entry.path by {
        assert(path_keys(pairs).contains(ks[i]));
        assert(by_path(pairs)[i] == pairs[ks[i].1 as int]);
    }
}

proof fn lemma_raws_of(pairs: Seq<(ItemView, EntryView)>)
    requires
        matched(pairs),
    ensures
        raws_of(pairs).dom().finite(),
        forall|p: Seq<u8>| #[trigger]
            raws_of(pairs).contains_key(p) ==> raws_of(pairs)[p].path == p,
    decreases pairs.len(),
{
    if pairs.len() > 0 {
        let t = pairs.drop_last();
        assert forall|i: int| 0 <= i < t.len() implies (#[trigger] t[i]).1.path
            == t[i].0.entry.path by {
            assert(t[i] == pairs[i]);
        }
        lemma_raws_of(t);
        assert(pairs[pairs.len() - 1].1.path == pairs[pairs.len() - 1].0.entry.path);
    }
}

proof fn lemma_admit_group(
    f: FolderView,
    now: Timestamp,
    k: ((BatchId, NodeId), u64),
    unsorted: Seq<(ItemView, EntryView)>,
    brake: bool,
)
    requires
        orderly(f),
        matched(unsorted),
    ensures
        orderly(f.admit_group(now, k, unsorted, brake)),
{
    reveal(FolderView::admit_group);
    lemma_by_path(unsorted);
    let pairs = by_path(unsorted);
    let raws = raws_of(pairs);
    lemma_raws_of(pairs);
    let batch = k.0.0;
    let summary = weight(f.index, items_of(pairs));
    let v = if brake {
        verdict(f.rules, summary, f.index.tracked_count() as usize)
    } else {
        Verdict::Pass
    };
    match v {
        Verdict::Hold(reason) => {
            law_joins_intact(f.quarantine, raws, in_order(raws.dom()), batch);
            law_hold_intact(
                f.quarantine,
                HeldItemView {
                    batch,
                    source: k.0.1,
                    seq_high: k.1,
                    held_at: now,
                    reason,
                    entries: raws,
                },
            );
        },
        Verdict::Pass => {
            lemma_wanting_all(f, pairs, batch, k.0.1, k.1);
        },
    }
}

proof fn lemma_admit_groups(
    f: FolderView,
    now: Timestamp,
    groups: Groups,
    ks: Seq<((BatchId, NodeId), u64)>,
    brake: bool,
)
    requires
        orderly(f),
        all_matched(groups),
        forall|i: int| 0 <= i < ks.len() ==> groups.contains_key(#[trigger] ks[i]),
    ensures
        orderly(f.admit_groups(now, groups, ks, brake)),
    decreases ks.len(),
{
    if ks.len() > 0 {
        let t = ks.drop_last();
        assert forall|i: int| 0 <= i < t.len() implies groups.contains_key(#[trigger] t[i]) by {
            assert(t[i] == ks[i]);
        }
        lemma_admit_groups(f, now, groups, t, brake);
        assert(groups.contains_key(ks[ks.len() - 1]));
        lemma_admit_group(
            f.admit_groups(now, groups, t, brake),
            now,
            ks.last(),
            groups[ks.last()],
            brake,
        );
    }
}

proof fn lemma_sort_all(s: Sorting, cs: Seq<CandidateView>, brake: bool)
    requires
        wants_filed(s.wants.wants),
        intact(s.quarantine),
        all_matched(s.groups),
        candidates_match(cs),
    ensures
        wants_filed(s.sort_all(cs, brake).wants.wants),
        intact(s.sort_all(cs, brake).quarantine),
        all_matched(s.sort_all(cs, brake).groups),
    decreases cs.len(),
{
    if cs.len() > 0 {
        let t = cs.drop_last();
        assert forall|i: int| 0 <= i < t.len() implies (#[trigger] t[i]).raw.path
            == t[i].item.entry.path by {
            assert(t[i] == cs[i]);
        }
        lemma_sort_all(s, t, brake);
        let a = s.sort_all(t, brake);
        let c = cs.last();
        assert(cs[cs.len() - 1].raw.path == cs[cs.len() - 1].item.entry.path);
        law_join_intact(a.quarantine, c.batch, c.raw);
        match first_match(a.quarantine.list(c.raw.path), c.raw.version) {
            Some(held) => {
                law_join_intact(a.quarantine, held, c.raw);
            },
            None => {},
        }
        let k = ((c.batch, c.source), c.seq_high);
        let old_list = if a.groups.contains_key(k) {
            a.groups[k]
        } else {
            Seq::empty()
        };
        let new_list = old_list.push((c.item, c.raw));
        assert(matched(new_list)) by {
            assert forall|i: int| 0 <= i < new_list.len() implies (#[trigger] new_list[i]).1.path
                == new_list[i].0.entry.path by {
                if i < old_list.len() {
                    assert(new_list[i] == old_list[i]);
                }
            }
        }
        assert(all_matched(a.groups.insert(k, new_list)));
    }
}

/// Letting matching candidates in keeps a folder orderly.
proof fn lemma_let_in(f: FolderView, now: Timestamp, cs: Seq<CandidateView>, brake: bool)
    requires
        orderly(f),
        candidates_match(cs),
    ensures
        orderly(f.let_in(now, cs, brake)),
{
    reveal(FolderView::let_in);
    let s0 = Sorting {
        wants: f.wants,
        quarantine: f.quarantine,
        groups: Map::empty(),
        joined: Map::empty(),
    };
    assert(all_matched(s0.groups));
    lemma_sort_all(s0, cs, brake);
    let t = f.sorted_out(cs, brake);
    let ks = in_order(t.groups.dom());
    lemma_order_facts(t.groups.dom());
    assert forall|i: int| 0 <= i < ks.len() implies t.groups.contains_key(#[trigger] ks[i]) by {
        assert(t.groups.dom().contains(ks[i]));
    }
    let g = FolderView {
        wants: t.wants,
        quarantine: t.quarantine,
        statuses: f.statuses + joined_statuses(t.joined, in_order(t.joined.dom())),
        ..f
    };
    lemma_admit_groups(g, now, t.groups, ks, brake);
}

proof fn lemma_naming(f: FolderView, path: Seq<u8>, version: Vector, by: Seq<NodeId>)
    requires
        orderly(f),
    ensures
        orderly(f.naming(path, version, by)),
    decreases by.len(),
{
    if by.len() > 0 {
        lemma_naming(f, path, version, by.drop_last());
    }
}

proof fn lemma_rederived(
    f: FolderView,
    now: Timestamp,
    path: Seq<u8>,
    old: WantView,
    entry: EntryView,
)
    requires
        orderly(f),
        entry.path == old.received.path,
    ensures
        orderly(f.rederived(now, path, old, entry)),
{
    reveal(FolderView::rederived);
    let c = classified(f.index, entry);
    law_candidates_dominate(f.index, entry);
    let s = FolderView { wants: f.wants.removed(path), ..f }.counting(
        if c.fallback {
            1
        } else {
            0
        },
    );
    if c.item is Some {
        let cs = seq![
            CandidateView {
                item: c.item->0,
                raw: old.received,
                batch: old.batch,
                source: old.source,
                seq_high: old.seq_high,
            },
        ];
        lemma_let_in(s, now, cs, true);
        lemma_naming(s.let_in(now, cs, true), path, old.entry.version, in_order(old.sources));
    }
}

proof fn lemma_candidates_of(s: IndexView, list: Seq<DeferredView>)
    requires
        s.well_formed(),
    ensures
        candidates_match(candidates_of(s, list)),
    decreases list.len(),
{
    if list.len() > 0 {
        let t = list.drop_last();
        lemma_candidates_of(s, t);
        law_candidates_dominate(s, list.last().entry);
        let a = candidates_of(s, t);
        let b = candidates_of(s, list);
        assert forall|i: int| 0 <= i < b.len() implies (#[trigger] b[i]).raw.path
            == b[i].item.entry.path by {
            if i < a.len() {
                assert(b[i] == a[i]);
            }
        }
    }
}

/// Deriving anew what is wanted and what waits keeps a folder orderly.
pub proof fn law_deriving_anew_orderly(
    f: FolderView,
    now: Timestamp,
    path: Seq<u8>,
    reason: DeferredReason,
)
    requires
        orderly(f),
    ensures
        orderly(f.reclassified(now, path)),
        orderly(f.redone(now, path)),
        orderly(f.reconsidered(now, path, reason)),
        orderly(f.unfrozen(now)),
{
    if f.wants.get(path) is Some {
        let old = f.wants.get(path)->0;
        lemma_rederived(f, now, path, old, old.entry);
        lemma_rederived(f, now, path, old, old.received);
    }
    reveal(FolderView::reconsidered);
    reveal(FolderView::unfrozen);
    if f.deferred.contains_key(path) {
        let list = f.deferred[path];
        let rest = kept(list, reason);
        let g = FolderView {
            deferred: if rest.len() > 0 {
                f.deferred.insert(path, rest)
            } else {
                f.deferred.remove(path)
            },
            ..f
        };
        let l = taken(list, reason);
        lemma_candidates_of(g.index, l);
        lemma_let_in(
            g.counting(fallbacks_of(g.index, l)),
            now,
            candidates_of(g.index, l),
            true,
        );
    }
    let g = FolderView { deferred: thawed(f.deferred), ..f };
    let l = frozen_among(f.deferred, in_order(f.deferred.dom()));
    lemma_candidates_of(g.index, l);
    lemma_let_in(g.counting(fallbacks_of(g.index, l)), now, candidates_of(g.index, l), true);
}

proof fn lemma_reconsidered_all(f: FolderView, now: Timestamp, ps: Seq<Seq<u8>>)
    requires
        orderly(f),
    ensures
        orderly(f.reconsidered_all(now, ps)),
    decreases ps.len(),
{
    if ps.len() > 0 {
        lemma_reconsidered_all(f, now, ps.drop_last());
        law_deriving_anew_orderly(
            f.reconsidered_all(now, ps.drop_last()),
            now,
            ps.last(),
            DeferredReason::ChangedUnderneath,
        );
    }
}

proof fn lemma_reclassified_all(f: FolderView, now: Timestamp, ps: Seq<Seq<u8>>)
    requires
        orderly(f),
    ensures
        orderly(f.reclassified_all(now, ps)),
    decreases ps.len(),
{
    if ps.len() > 0 {
        lemma_reclassified_all(f, now, ps.drop_last());
        law_deriving_anew_orderly(
            f.reclassified_all(now, ps.drop_last()),
            now,
            ps.last(),
            DeferredReason::ChangedUnderneath,
        );
    }
}

// ---- scans ------------------------------------------------------------------

proof fn lemma_absent_numbered(s: IndexView, path: Seq<u8>, now: Timestamp)
    requires
        s.well_formed(),
        numbered_while(s),
    ensures
        numbered_while(s.observe_absent(path, now.0)),
        numbered_while(s.observe_lost(path, now.0)),
{
    let o = Observed {
        kind: Kind::Dir,
        executable: false,
        size: 0,
        mtime_ns: 0,
        hash: ContentHash::empty(),
    };
    law_observe_numbered(s, path, o, now.0);
}

proof fn lemma_scan_numbered(f: FolderView, now: Timestamp, path: Seq<u8>, state: ScanState)
    requires
        f.index.well_formed(),
        numbered_while(f.index),
    ensures
        numbered_while(f.scan_index(now, path, state)),
{
    match state {
        ScanState::Observed(o) => {
            law_observe_numbered(f.index, path, o, now.0);
        },
        ScanState::Absent => {
            lemma_absent_numbered(f.index, path, now);
        },
        ScanState::Unchanged => {},
    }
}

/// A scan report keeps a folder orderly.
pub proof fn law_scan_orderly(f: FolderView, now: Timestamp, path: Seq<u8>, state: ScanState)
    requires
        orderly(f),
    ensures
        orderly(f.scanned(now, path, state)),
{
    let s = f.seen(path);
    if !(f.ignores(path, state) || (state is Unchanged && f.index.live(path) is None)) {
        let t = FolderView { index: f.scan_index(now, path, state), ..s };
        crate::laws::folder::lemma_scan_index(f, now, path, state);
        lemma_scan_numbered(f, now, path, state);
        law_deriving_anew_orderly(
            t.touched(now),
            now,
            path,
            DeferredReason::ChangedUnderneath,
        );
        let u = if f.scan_change(now, path, state) is Some {
            t.touched(now).reclassified(now, path)
        } else {
            t
        };
        law_deriving_anew_orderly(u, now, path, DeferredReason::ChangedUnderneath);
    }
}

proof fn lemma_vanished_all(w: WithChanges, now: Timestamp, ps: Seq<Seq<u8>>)
    requires
        orderly(w.folder),
    ensures
        orderly(w.vanished_all(now, ps).folder),
    decreases ps.len(),
{
    if ps.len() > 0 {
        let p = ps.last();
        lemma_vanished_all(w, now, ps.drop_last());
        let s = w.vanished_all(now, ps.drop_last()).folder;
        let t = FolderView { index: s.index.observe_absent(p, now.0), ..s };
        crate::laws::folder::lemma_absent_well_formed(s.index, p, now);
        lemma_absent_numbered(s.index, p, now);
        law_deriving_anew_orderly(t, now, p, DeferredReason::ChangedUnderneath);
        law_deriving_anew_orderly(
            t.reclassified(now, p),
            now,
            p,
            DeferredReason::ChangedUnderneath,
        );
        law_deriving_anew_orderly(s, now, p, DeferredReason::ChangedUnderneath);
    }
}

/// The end of a scan keeps a folder orderly.
pub proof fn law_scan_end_orderly(f: FolderView, now: Timestamp)
    requires
        orderly(f),
    ensures
        orderly(f.scan_finished(now)),
{
    if f.scan is Some {
        let seen = f.scan->0;
        let s = FolderView { scan: None, ..f };
        let gone = s.gone_among(
            crate::index::live_among(s.index.records, s.index.paths()),
            seen,
        );
        lemma_vanished_all(WithChanges { folder: s, changes: Seq::empty() }, now, gone);
        let t = f.scan_swept(now, seen).folder;
        lemma_reconsidered_all(t, now, t.unseen_among(in_order(t.deferred.dom()), seen));
    }
}

// ---- receiving --------------------------------------------------------------

proof fn lemma_sourced(
    f: FolderView,
    raw: Map<Seq<u8>, EntryView>,
    ks: Seq<Seq<u8>>,
    source: NodeId,
)
    requires
        orderly(f),
    ensures
        orderly(f.sourced(raw, ks, source)),
    decreases ks.len(),
{
    if ks.len() > 0 {
        lemma_sourced(f, raw, ks.drop_last(), source);
    }
}

proof fn lemma_sort_received(
    r: Receiving,
    items: Seq<ItemView>,
    raw: Map<Seq<u8>, EntryView>,
    batch: BatchView,
)
    requires
        orderly(r.folder),
    ensures
        orderly(r.sort_all(items, raw, batch).folder),
    decreases items.len(),
{
    if items.len() > 0 {
        let t = items.drop_last();
        lemma_sort_received(r, t, raw, batch);
        let s = r.sort_all(t, raw, batch).folder;
        let e = raw[items.last().entry.path];
        match first_match(s.quarantine.list(e.path), e.version) {
            Some(held) => {
                law_join_intact(s.quarantine, held, e);
            },
            None => {},
        }
    }
}

proof fn lemma_raws_for(items: Seq<ItemView>, raw: Map<Seq<u8>, EntryView>)
    requires
        forall|p: Seq<u8>| #[trigger] raw.contains_key(p) ==> raw[p].path == p,
    ensures
        raws_for(items, raw).dom().finite(),
        forall|p: Seq<u8>| #[trigger]
            raws_for(items, raw).contains_key(p) ==> raws_for(items, raw)[p].path == p
                && raw.contains_key(p) && raws_for(items, raw)[p] == raw[p],
        forall|i: int|
            0 <= i < items.len() && raw.contains_key((#[trigger] items[i]).entry.path) ==> raws_for(
                items,
                raw,
            ).contains_key(items[i].entry.path),
    decreases items.len(),
{
    if items.len() > 0 {
        let t = items.drop_last();
        lemma_raws_for(t, raw);
        assert forall|i: int|
            0 <= i < items.len() && raw.contains_key(
                (#[trigger] items[i]).entry.path,
            ) implies raws_for(items, raw).contains_key(items[i].entry.path) by {
            if i < t.len() {
                assert(t[i] == items[i]);
                assert(raws_for(t, raw).contains_key(t[i].entry.path));
            }
        }
    }
}

proof fn lemma_last_by_path(entries: Seq<EntryView>)
    ensures
        forall|p: Seq<u8>| #[trigger]
            last_by_path(entries).contains_key(p) ==> last_by_path(entries)[p].path == p
                && entries.contains(last_by_path(entries)[p]),
    decreases entries.len(),
{
    if entries.len() > 0 {
        let t = entries.drop_last();
        lemma_last_by_path(t);
        assert forall|p: Seq<u8>| #[trigger] last_by_path(entries).contains_key(p) implies
            last_by_path(entries)[p].path == p && entries.contains(last_by_path(entries)[p]) by {
            if p == entries.last().path {
                assert(entries[entries.len() - 1] == entries.last());
            } else {
                assert(last_by_path(t).contains_key(p));
                let e = last_by_path(t)[p];
                let i = choose|i: int| 0 <= i < t.len() && t[i] == e;
                assert(entries[i] == e);
            }
        }
    }
}

proof fn lemma_receiving(f: FolderView, batch: BatchView)
    requires
        orderly(f),
    ensures
        orderly(f.receiving(batch).folder),
{
    let s = FolderView {
        index: f.index.received(batch.source, batch.seq_low, batch.seq_high),
        ..f
    };
    law_settling_well_formed(f.index, batch.source, batch.seq_low, batch.seq_high);
    law_settling_numbered(f.index, batch.source, batch.seq_low, batch.seq_high);
    let set = apply_set_of(s.index, batch);
    let raw = last_by_path(batch.entries);
    let c = s.counting(set.fallbacks);
    lemma_sourced(c, raw, in_order(raw.dom()), batch.source);
    let t = c.sourced(raw, in_order(raw.dom()), batch.source);
    lemma_sort_received(
        Receiving {
            folder: t,
            kept: Seq::empty(),
            joined: 0,
            frozen: 0,
            already_wanted: 0,
        },
        set.items,
        raw,
        batch,
    );
}

/// Receiving a batch keeps a folder orderly.
pub proof fn law_receiving_orderly(f: FolderView, now: Timestamp, batch: BatchView)
    requires
        orderly(f),
    ensures
        orderly(f.received(now, batch).folder),
{
    lemma_receiving(f, batch);
    lemma_last_by_path(batch.entries);
    let raw = last_by_path(batch.entries);
    let r = f.receiving(batch);
    let s = r.folder;
    lemma_raws_for(r.kept, raw);
    match verdict(s.rules, weight(s.index, r.kept), s.index.tracked_count() as usize) {
        Verdict::Hold(reason) => {
            law_hold_intact(
                s.quarantine,
                HeldItemView {
                    batch: batch.id,
                    source: batch.source,
                    seq_high: batch.seq_high,
                    held_at: now,
                    reason,
                    entries: raws_for(r.kept, raw),
                },
            );
        },
        Verdict::Pass => {
            let pairs = paired(r.kept, raw);
            assert forall|i: int| 0 <= i < pairs.len() implies (#[trigger] pairs[i]).1.path
                == pairs[i].0.entry.path by {
                assert(raw.contains_key(r.kept[i].entry.path) ==> raw[r.kept[i].entry.path].path
                    == r.kept[i].entry.path);
            }
            lemma_wanting_all(s, pairs, batch.id, batch.source, batch.seq_high);
        },
    }
}

/// What a held batch would change is quarantined as it was received: for every item of it, the
/// entry of the batch at that path is held under the batch, and its version is among those at the
/// path.
pub proof fn law_held_as_received(f: FolderView, now: Timestamp, batch: BatchView, j: int)
    requires
        orderly(f),
        f.received(now, batch).received.held is Some,
        0 <= j < f.received(now, batch).received.set.items.len(),
    ensures
        ({
            let r = f.received(now, batch);
            let p = r.received.set.items[j].entry.path;
            let e = last_by_path(batch.entries)[p];
            let q = r.folder.quarantine;
            &&& batch.entries.contains(e)
            &&& e.path == p
            &&& q.items.contains_key(batch.id)
            &&& q.items[batch.id].entries.contains_key(p)
            &&& crate::quarantine::holds_version(q.list(p), batch.id, e.version)
        }),
{
    lemma_receiving(f, batch);
    lemma_last_by_path(batch.entries);
    let raw = last_by_path(batch.entries);
    let r = f.receiving(batch);
    let s = r.folder;
    lemma_raws_for(r.kept, raw);
    let x = f.index.received(batch.source, batch.seq_low, batch.seq_high);
    law_settling_well_formed(f.index, batch.source, batch.seq_low, batch.seq_high);
    law_settling_numbered(f.index, batch.source, batch.seq_low, batch.seq_high);
    crate::batch::lemma_apply_set_paths(x, batch);
    crate::laws::folder::lemma_receiving(f, batch);
    let item = r.kept[j];
    let items = apply_set_of(x, batch).items;
    let i = choose|i: int| 0 <= i < items.len() && items[i] == item;
    assert(raw.contains_key(items[i].entry.path));
    assert(raws_for(r.kept, raw).contains_key(item.entry.path));
    match verdict(s.rules, weight(s.index, r.kept), s.index.tracked_count() as usize) {
        Verdict::Hold(reason) => {
            law_hold_intact(
                s.quarantine,
                HeldItemView {
                    batch: batch.id,
                    source: batch.source,
                    seq_high: batch.seq_high,
                    held_at: now,
                    reason,
                    entries: raws_for(r.kept, raw),
                },
            );
        },
        Verdict::Pass => {},
    }
}

// ---- decisions --------------------------------------------------------------

proof fn lemma_released_among(
    s: IndexView,
    entries: Map<Seq<u8>, EntryView>,
    ks: Seq<Seq<u8>>,
)
    requires
        s.well_formed(),
        forall|p: Seq<u8>| #[trigger] entries.contains_key(p) ==> entries[p].path == p,
    ensures
        matched(released_among(s, entries, ks)),
    decreases ks.len(),
{
    if ks.len() > 0 {
        let t = ks.drop_last();
        lemma_released_among(s, entries, t);
        let a = released_among(s, entries, t);
        let b = released_among(s, entries, ks);
        assert forall|i: int| 0 <= i < b.len() implies (#[trigger] b[i]).1.path
            == b[i].0.entry.path by {
            if i < a.len() {
                assert(b[i] == a[i]);
            } else {
                let p = b[i].0.entry.path;
                assert(entries.contains_key(p) ==> entries[p].path == p);
            }
        }
    }
}

/// An approval keeps a folder orderly.
pub proof fn law_approval_orderly(f: FolderView, now: Timestamp, batch: BatchId)
    requires
        orderly(f),
    ensures
        orderly(f.approve(now, batch).folder),
{
    if f.quarantine.items.contains_key(batch) {
        let item = f.quarantine.items[batch];
        let ks = in_order(item.entries.dom());
        let all = released_among(f.index, item.entries, ks);
        lemma_released_among(f.index, item.entries, ks);
        lemma_by_path(all);
        let pairs = by_path(all);
        law_release_intact(f.quarantine, batch);
        let s = FolderView { quarantine: f.quarantine.released(batch), ..f }.counting(
            crate::batch::fallbacks_among(f.index, item.entries, ks),
        );
        let cs = as_candidates(pairs, item.batch, item.source, item.seq_high);
        assert forall|i: int| 0 <= i < cs.len() implies (#[trigger] cs[i]).raw.path
            == cs[i].item.entry.path by {
            assert(pairs[i].1.path == pairs[i].0.entry.path);
        }
        lemma_let_in(s, now, cs, false);
    } else if f.paused is Some && (f.paused->0).batch == batch {
        law_settling_well_formed(f.index, f.index.own, 0, 0);
        law_settling_numbered(f.index, f.index.own, 0, 0);
        law_return_intact(f.quarantine);
        law_deriving_anew_orderly(
            FolderView { paused: None, ..f.announced() },
            now,
            Seq::empty(),
            DeferredReason::Frozen,
        );
    }
}

proof fn lemma_bumped_all(w: WithChanges, now: Timestamp, ps: Seq<Seq<u8>>)
    requires
        orderly(w.folder),
    ensures
        orderly(w.bumped_all(now, ps).folder),
        w.bumped_all(now, ps).folder.quarantine == w.folder.quarantine,
    decreases ps.len(),
{
    if ps.len() > 0 {
        lemma_bumped_all(w, now, ps.drop_last());
        let s = w.bumped_all(now, ps.drop_last()).folder;
        crate::laws::folder::lemma_bump_well_formed(
            s.index,
            ps.last(),
            s.quarantine.list(ps.last()),
            now,
        );
        let list = s.quarantine.list(ps.last());
        law_written_numbered(
            s.index,
            s.index.bumped_entry(ps.last(), versions_in(list), max_stamp(list), now.0),
        );
    }
}

/// A denial keeps a folder orderly.
pub proof fn law_denial_orderly(f: FolderView, now: Timestamp, batch: BatchId)
    requires
        orderly(f),
    ensures
        orderly(f.denial(now, batch).folder),
{
    let ps = in_order(f.quarantine.items[batch].entries.dom());
    let w0 = WithChanges { folder: f, changes: Seq::empty() };
    lemma_bumped_all(w0, now, ps);
    let w = w0.bumped_all(now, ps);
    law_denial_intact(w.folder.quarantine, batch);
    let s = FolderView { quarantine: w.folder.quarantine.denial(batch), ..w.folder };
    let t = if ps.len() > 0 {
        s.touched(now)
    } else {
        s
    };
    lemma_reclassified_all(t, now, ps);
}

proof fn lemma_resettled(f: FolderView, now: Timestamp, batch: BatchId, rs: Seq<RevertedView>)
    requires
        orderly(f),
    ensures
        orderly(f.resettled(now, batch, rs)),
    decreases rs.len(),
{
    if rs.len() > 0 {
        lemma_resettled(f, now, batch, rs.drop_last());
        law_deriving_anew_orderly(
            f.resettled(now, batch, rs.drop_last()),
            now,
            rs.last().path,
            DeferredReason::ChangedUnderneath,
        );
    }
}

/// A revert keeps a folder orderly.
pub proof fn law_revert_orderly(f: FolderView, now: Timestamp)
    requires
        orderly(f),
    ensures
        orderly(f.reverted(now)),
{
    if f.paused is Some {
        law_settling_well_formed(f.index, f.index.own, 0, 0);
        law_settling_numbered(f.index, f.index.own, 0, 0);
        law_return_intact(f.quarantine);
        let rs = f.index.reverted_list();
        let g = FolderView {
            paused: None,
            index: f.index.reverted(),
            quarantine: f.quarantine.all_returned(),
            ..f
        };
        lemma_resettled(g, now, (f.paused->0).batch, rs);
        law_deriving_anew_orderly(
            FolderView { window: None, ..g.resettled(now, (f.paused->0).batch, rs) },
            now,
            Seq::empty(),
            DeferredReason::Frozen,
        );
    }
}

/// A tick keeps a folder orderly.
pub proof fn law_tick_orderly(f: FolderView, now: Timestamp, base: BatchId)
    requires
        orderly(f),
    ensures
        orderly(f.ticked(now, base)),
{
    law_settling_well_formed(f.index, f.index.own, 0, 0);
    law_settling_numbered(f.index, f.index.own, 0, 0);
    law_return_intact(f.quarantine);
}

// ---- the host's reports -----------------------------------------------------

/// A report on a fetch keeps a folder orderly.
pub proof fn law_fetch_report_orderly(
    f: FolderView,
    now: Timestamp,
    path: Seq<u8>,
    version: Vector,
    report: FetchReport,
)
    requires
        orderly(f),
    ensures
        orderly(f.fetched(now, path, version, report)),
{
    crate::laws::folder::lemma_absent_well_formed(f.index, path, now);
    lemma_absent_numbered(f.index, path, now);
}

/// What the host put in place, or could not, keeps a folder orderly.
pub proof fn law_applying_orderly(
    f: FolderView,
    now: Timestamp,
    path: Seq<u8>,
    version: Vector,
    outcome: ApplyOutcome,
)
    requires
        orderly(f),
    ensures
        orderly(f.applied(now, path, version, outcome).folder),
{
    if f.wants.wants_version(path, version) {
        let w = f.wants.wants[path];
        let s = FolderView { wants: f.wants.removed(path), ..f };
        law_adopted_well_formed(s.index, w.entry);
        law_adopted_numbered(s.index, w.entry);
        let t = s.adopting(now, w.entry);
        law_deriving_anew_orderly(t, now, path, DeferredReason::ChangedUnderneath);
        if w.conflict is Some {
            let copy = w.conflict->0;
            let e = t.index.copy_entry(copy.path, copy.loser);
            law_written_well_formed(t.index, e);
            law_written_numbered(t.index, e);
            let u = FolderView { index: t.index.written(e), ..t }.touched(now);
            law_deriving_anew_orderly(u, now, copy.path, DeferredReason::ChangedUnderneath);
            law_deriving_anew_orderly(
                u.reclassified(now, copy.path),
                now,
                path,
                DeferredReason::ChangedUnderneath,
            );
        }
    }
}

proof fn lemma_with_states(s: WantListView, ps: Seq<Seq<u8>>, state: WantState)
    requires
        wants_filed(s.wants),
        !(state is Blocked),
    ensures
        wants_filed(s.with_states(ps, state).wants),
    decreases ps.len(),
{
    if ps.len() > 0 {
        lemma_with_states(s, ps.drop_last(), state);
    }
}

proof fn lemma_take_all(w: WithSteps, now: Timestamp, steps: Seq<WantStepView>)
    requires
        orderly(w.folder),
    ensures
        orderly(w.take_all(now, steps).folder),
    decreases steps.len(),
{
    if steps.len() > 0 {
        lemma_take_all(w, now, steps.drop_last());
        let s = w.take_all(now, steps.drop_last()).folder;
        match steps.last() {
            WantStepView::Adopt(x) => {
                law_adopted_well_formed(s.index, x.entry);
                law_adopted_numbered(s.index, x.entry);
                law_deriving_anew_orderly(
                    s.adopting(now, x.entry),
                    now,
                    x.entry.path,
                    DeferredReason::ChangedUnderneath,
                );
                law_deriving_anew_orderly(
                    s.postponing(x),
                    now,
                    x.entry.path,
                    DeferredReason::ChangedUnderneath,
                );
            },
            _ => {},
        }
    }
}

/// Driving the want-list keeps a folder orderly.
pub proof fn law_dispatch_orderly(f: FolderView, now: Timestamp, peers: Map<NodeId, Tier>)
    requires
        orderly(f),
    ensures
        orderly(f.dispatched(now, peers).folder),
{
    let s = f.wants;
    lemma_placed(s, now, f.rules, peers);
    let d = s.dispatched(now, f.rules, peers);
    vstd::set_lib::lemma_set_subset_finite(s.wants.dom(), d.list.wants.dom());
    assert forall|p: Seq<u8>| #[trigger] d.list.wants.contains_key(p) implies s.wants.contains_key(
        p,
    ) by {
        assert(d.list.wants.dom().contains(p));
        assert(s.wants.dom().contains(p));
    }
    lemma_take_all(
        WithSteps {
            folder: FolderView { wants: d.list, ..f },
            host: Seq::empty(),
            adopted: Seq::empty(),
        },
        now,
        d.steps,
    );
}

proof fn lemma_restarted_among(s: WantListView, ks: Seq<Seq<u8>>)
    requires
        wants_filed(s.wants),
        ks.no_duplicates(),
        forall|i: int| 0 <= i < ks.len() ==> s.wants.contains_key(#[trigger] ks[i]),
    ensures
        wants_filed(s.restarted_among(ks).wants),
        s.restarted_among(ks).wants.dom() =~= s.wants.dom(),
    decreases ks.len(),
{
    if ks.len() > 0 {
        let t = ks.drop_last();
        assert forall|i: int| 0 <= i < t.len() implies s.wants.contains_key(#[trigger] t[i]) by {
            assert(t[i] == ks[i]);
        }
        assert forall|i: int, j: int| 0 <= i < t.len() && 0 <= j < t.len() && i != j implies t[i]
            != t[j] by {
            assert(ks[i] != ks[j]);
        }
        lemma_restarted_among(s, t);
        let a = s.restarted_among(t);
        assert(s.wants.contains_key(ks[ks.len() - 1]));
        assert(a.wants.dom().contains(ks.last()));
        assert(a.wants.contains_key(ks.last()));
    }
}

/// A restart keeps a folder orderly.
pub proof fn law_restart_orderly(f: FolderView)
    requires
        orderly(f),
    ensures
        orderly(f.restarted()),
{
    lemma_order_facts(f.wants.wants.dom());
    assert forall|i: int| 0 <= i < f.wants.paths().len() implies f.wants.wants.contains_key(
        #[trigger] f.wants.paths()[i],
    ) by {
        assert(f.wants.wants.dom().contains(f.wants.paths()[i]));
    }
    lemma_restarted_among(f.wants, f.wants.paths());
}

// ---- events -----------------------------------------------------------------

/// Whether a stored want, if the event hands one back, stands at the path it was received for.
pub open spec fn sensible(event: EventView) -> bool {
    event is WantRestored ==> event->want.received.path == event->want.entry.path
}

/// Every event keeps the folder that it is about orderly.
pub proof fn law_event_orderly(
    f: FolderView,
    id: FolderId,
    own: NodeId,
    peers: Map<NodeId, Tier>,
    now: Timestamp,
    event: EventView,
)
    requires
        orderly(f),
        sensible(event),
    ensures
        orderly(folder_step(f, id, own, peers, now, event).folder),
{
    match event {
        EventView::Scanned { folder, path, state } => {
            law_scan_orderly(f, now, path, state);
        },
        EventView::ScanFinished { folder } => {
            law_scan_end_orderly(f, now);
        },
        EventView::BatchReceived { from, batch } => {
            law_receiving_orderly(f, now, batch);
        },
        EventView::Fetched { folder, path, hash, version, outcome } => {
            law_fetch_report_orderly(f, now, path, version, outcome);
        },
        EventView::Applied { folder, path, version, outcome } => {
            law_applying_orderly(f, now, path, version, outcome);
        },
        EventView::Approve { folder, batch } => {
            law_approval_orderly(f, now, batch);
        },
        EventView::Deny { folder, batch } => {
            law_denial_orderly(f, now, batch);
        },
        EventView::Revert { folder } => {
            law_revert_orderly(f, now);
        },
        _ => {},
    }
}

/// Whether every folder is orderly.
pub open spec fn all_orderly(folders: Map<FolderId, FolderView>) -> bool {
    &&& folders.dom().finite()
    &&& forall|id: FolderId| #[trigger] folders.contains_key(id) ==> orderly(folders[id])
}

proof fn lemma_pump_all(
    s: FoldersStep,
    ks: Seq<FolderId>,
    peers: Map<NodeId, Tier>,
    now: Timestamp,
)
    requires
        all_orderly(s.folders),
        forall|i: int| 0 <= i < ks.len() ==> s.folders.contains_key(#[trigger] ks[i]),
    ensures
        all_orderly(s.pump_all(ks, peers, now).folders),
        s.pump_all(ks, peers, now).folders.dom() =~= s.folders.dom(),
    decreases ks.len(),
{
    if ks.len() > 0 {
        let t = ks.drop_last();
        assert forall|i: int| 0 <= i < t.len() implies s.folders.contains_key(#[trigger] t[i]) by {
            assert(t[i] == ks[i]);
        }
        lemma_pump_all(s, t, peers, now);
        let m = s.pump_all(t, peers, now);
        let id = ks[ks.len() - 1];
        assert(s.folders.contains_key(id));
        assert(m.folders.dom().contains(id));
        assert(m.folders.contains_key(id));
        reveal(FoldersStep::pump);
        law_dispatch_orderly(m.folders[id], now, peers);
    }
}

proof fn lemma_tick_all(
    s: TickStep,
    ks: Seq<FolderId>,
    own: NodeId,
    peers: Map<NodeId, Tier>,
    now: Timestamp,
    fresh: BatchId,
)
    requires
        all_orderly(s.folders),
        forall|i: int| 0 <= i < ks.len() ==> s.folders.contains_key(#[trigger] ks[i]),
    ensures
        all_orderly(s.tick_all(ks, own, peers, now, fresh).folders),
        s.tick_all(ks, own, peers, now, fresh).folders.dom() =~= s.folders.dom(),
    decreases ks.len(),
{
    if ks.len() > 0 {
        let t = ks.drop_last();
        assert forall|i: int| 0 <= i < t.len() implies s.folders.contains_key(#[trigger] t[i]) by {
            assert(t[i] == ks[i]);
        }
        lemma_tick_all(s, t, own, peers, now, fresh);
        let m = s.tick_all(t, own, peers, now, fresh);
        let id = ks[ks.len() - 1];
        assert(s.folders.contains_key(id));
        assert(m.folders.dom().contains(id));
        assert(m.folders.contains_key(id));
        reveal(TickStep::tick);
        let f0 = m.folders[id];
        let overdue = overdue_among(f0.wants.wants, f0.wants.paths(), now);
        lemma_with_states(f0.wants, overdue, WantState::Wanted);
        let f1 = FolderView { wants: f0.wants.with_states(overdue, WantState::Wanted), ..f0 };
        let f2 = FolderView { catchup: Set::empty(), ..f1 };
        let used = plus_used(
            m.used,
            f1.catchup_used(now, fresh.after(m.used as int), in_order(f1.catchup)),
        );
        let base2 = fresh.after(used as int);
        law_tick_orderly(f2, now, base2);
        let r = m.tick(id, own, peers, now, fresh);
        assert(r.folders == m.folders.insert(id, f2.ticked(now, base2)));
    }
}

/// Every folder of an engine stays orderly, whatever event is handled: its index is well formed,
/// its sequence numbers tell records apart, its wants stand under their paths, its quarantined
/// versions are in the order of arrival, and none belongs to an item that does not exist.
pub proof fn law_engine_stays_orderly(s: EngineView, now: Timestamp, event: EventView)
    requires
        all_orderly(s.folders),
        sensible(event),
    ensures
        all_orderly(s.handled(now, event).engine.folders),
{
    let t = s.taken_in(now, event);
    assert(all_orderly(t.engine.folders)) by {
        match event {
            EventView::Tick { fresh_batch_id } => {
                lemma_ids(s);
                lemma_tick_all(
                    TickStep { folders: s.folders, used: 0, actions: Seq::empty() },
                    s.ids(),
                    s.node_id,
                    s.peers,
                    now,
                    fresh_batch_id,
                );
            },
            EventView::FolderJoined { folder, rules, members } => {
                law_initial_orderly(folder, rules, members.to_set(), s.node_id, s.author_host);
            },
            EventView::PeerConnected { peer, tier } => {},
            EventView::PeerTierChanged { peer, tier } => {},
            EventView::PeerDisconnected { peer } => {
                assert(t.engine.folders.dom() =~= s.folders.dom());
                assert forall|id: FolderId| #[trigger]
                    t.engine.folders.contains_key(id) implies orderly(t.engine.folders[id]) by {
                    let f = s.folders[id];
                    assert(s.folders.contains_key(id));
                    lemma_with_states(
                        f.wants,
                        served_among(f.wants.wants, f.wants.paths(), peer),
                        WantState::Wanted,
                    );
                }
            },
            _ => {
                let id = event.folder()->0;
                if s.folders.contains_key(id) {
                    law_event_orderly(s.folders[id], id, s.node_id, s.peers, now, event);
                }
            },
        }
    }
    lemma_ids(t.engine);
    lemma_pump_all(
        FoldersStep { folders: t.engine.folders, actions: t.actions },
        t.engine.ids(),
        t.engine.peers,
        now,
    );
    let p = t.pumped(now);
    lemma_schedule_all(p, p.engine.ids());
}

/// An engine that starts from orderly folders is orderly.
pub proof fn law_restored_orderly(s: EngineView, l: Seq<FolderView>)
    requires
        all_orderly(s.folders),
        forall|i: int| 0 <= i < l.len() ==> orderly(#[trigger] l[i]),
    ensures
        all_orderly(s.restored(l).folders),
    decreases l.len(),
{
    if l.len() > 0 {
        let t = l.drop_last();
        assert forall|i: int| 0 <= i < t.len() implies orderly(#[trigger] t[i]) by {
            assert(t[i] == l[i]);
        }
        law_restored_orderly(s, t);
        assert(orderly(l[l.len() - 1]));
        law_restart_orderly(l.last());
    }
}

} // verus!
