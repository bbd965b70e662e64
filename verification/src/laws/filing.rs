//! What the quarantine files where: no version belongs to an item that does not exist.

use crate::entry::EntryView;
use crate::id::BatchId;
use crate::laws::quarantine::item_sound;
use crate::order::{in_order, lemma_order_facts};
use crate::quarantine::{
    first_match, holds_version, without, Arrivals, HeldItemView, HeldRowView, QuarantineView,
    QuarantinedView,
};
use crate::version::Vector;
use vstd::prelude::*;

verus! {

/// Whether a denied item can be put back: its versions stand at its paths.
pub open spec fn row_filed(row: HeldRowView) -> bool {
    &&& item_sound(row.item)
    &&& row.versions.dom().finite()
    &&& row.versions.dom().subset_of(row.item.entries.dom())
}

/// Whether every version belongs to an item that holds its path, or to `batch` at one of `ps`.
pub open spec fn owned_but(q: QuarantineView, batch: BatchId, ps: Set<Seq<u8>>) -> bool {
    forall|p: Seq<u8>, i: int|
        0 <= i < q.list(p).len() ==> {
            let b = (#[trigger] q.list(p)[i]).0;
            (q.items.contains_key(b) && q.items[b].entries.contains_key(p)) || (b == batch
                && ps.contains(p))
        }
}

/// Whether every version belongs to an item that holds its path.
pub open spec fn owned(q: QuarantineView) -> bool {
    forall|p: Seq<u8>, i: int|
        0 <= i < q.list(p).len() ==> {
            let b = (#[trigger] q.list(p)[i]).0;
            q.items.contains_key(b) && q.items[b].entries.contains_key(p)
        }
}

/// Whether items stand under their identifiers, their entries under their paths and in the
/// versions of those, and denied items can be put back.
pub open spec fn recorded(q: QuarantineView) -> bool {
    &&& q.items.dom().finite()
    &&& q.denied.dom().finite()
    &&& forall|b: BatchId| #[trigger]
        q.items.contains_key(b) ==> q.items[b].batch == b && item_sound(q.items[b])
    &&& forall|b: BatchId, p: Seq<u8>|
        q.items.contains_key(b) && (#[trigger] q.items[b].entries.contains_key(p))
            ==> holds_version(q.list(p), b, q.items[b].entries[p].version)
    &&& forall|at: u64| #[trigger] q.denied.contains_key(at) ==> row_filed(q.denied[at])
}

/// Whether everything in a quarantine is filed where it is found again: every version belongs to
/// an item that exists and holds its path, and every entry of every item is among the versions at
/// its path.
pub open spec fn filed(q: QuarantineView) -> bool {
    owned(q) && recorded(q)
}

/// A new quarantine is filed.
pub proof fn law_initial_filed()
    ensures
        filed(QuarantineView::initial()),
{
}

/// What a later version matches exists: it joins an item that holds its path.
pub proof fn law_matches_exist(q: QuarantineView, p: Seq<u8>, version: Vector)
    requires
        filed(q),
    ensures
        match first_match(q.list(p), version) {
            Some(b) => q.items.contains_key(b) && q.items[b].entries.contains_key(p),
            None => true,
        },
{
    lemma_match_owner(q.list(p), version);
}

proof fn lemma_match_owner(list: Arrivals, version: Vector)
    ensures
        first_match(list, version) is Some ==> exists|i: int|
            0 <= i < list.len() && (#[trigger] list[i]).0 == first_match(list, version)->0,
    decreases list.len(),
{
    if list.len() > 0 {
        let t = list.drop_last();
        lemma_match_owner(t, version);
        if first_match(t, version) is Some {
            let i = choose|i: int|
                0 <= i < t.len() && (#[trigger] t[i]).0 == first_match(t, version)->0;
            assert(list[i].0 == t[i].0);
        } else {
            assert(list[list.len() - 1].0 == list.last().0);
        }
    }
}

// ---- recording --------------------------------------------------------------

proof fn lemma_recording(
    q: QuarantineView,
    path: Seq<u8>,
    version: Vector,
    stamp: i64,
    batch: BatchId,
    ps: Set<Seq<u8>>,
)
    requires
        owned_but(q, batch, ps),
        recorded(q),
        ps.contains(path) || (q.items.contains_key(batch) && q.items[batch].entries.contains_key(
            path,
        )),
    ensures
        ({
            let t = q.recorded(path, version, stamp, batch);
            &&& owned_but(t, batch, ps)
            &&& recorded(t)
            &&& t.items == q.items
            &&& holds_version(t.list(path), batch, version)
            &&& forall|p: Seq<u8>, b: BatchId, v: Vector| #[trigger]
                holds_version(q.list(p), b, v) ==> holds_version(t.list(p), b, v)
        }),
{
    let t = q.recorded(path, version, stamp, batch);
    if !holds_version(q.list(path), batch, version) {
        let n = q.list(path).len() as int;
        assert(t.list(path)[n].0 == batch && t.list(path)[n].1.version == version);
        assert forall|p: Seq<u8>, b: BatchId, v: Vector| #[trigger]
            holds_version(q.list(p), b, v) implies holds_version(t.list(p), b, v) by {
            let i = choose|i: int|
                0 <= i < q.list(p).len() && (#[trigger] q.list(p)[i]).0 == b && q.list(
                    p,
                )[i].1.version == v;
            assert(t.list(p)[i] == q.list(p)[i]);
        }
        assert forall|p: Seq<u8>, i: int| 0 <= i < t.list(p).len() implies {
            let b = (#[trigger] t.list(p)[i]).0;
            (t.items.contains_key(b) && t.items[b].entries.contains_key(p)) || (b == batch
                && ps.contains(p))
        } by {
            if p != path || i < n {
                assert(t.list(p)[i] == q.list(p)[i]);
            }
        }
        assert forall|b: BatchId, p: Seq<u8>|
            t.items.contains_key(b) && (#[trigger] t.items[b].entries.contains_key(
                p,
            )) implies holds_version(t.list(p), b, t.items[b].entries[p].version) by {
            assert(q.items[b].entries.contains_key(p));
            assert(holds_version(q.list(p), b, q.items[b].entries[p].version));
        }
    }
}

/// An entry that joins keeps the quarantine filed, whatever it joins.
pub proof fn law_join_filed(q: QuarantineView, batch: BatchId, entry: EntryView)
    requires
        filed(q),
    ensures
        filed(q.joined(batch, entry)),
        q.items.contains_key(batch) ==> q.joined(
            batch,
            entry,
        ).items[batch].entries.contains_key(entry.path) && holds_version(
            q.joined(batch, entry).list(entry.path),
            batch,
            entry.version,
        ),
{
    lemma_joining(q, batch, entry, Set::empty());
}

proof fn lemma_joining(
    q: QuarantineView,
    batch: BatchId,
    entry: EntryView,
    ps: Set<Seq<u8>>,
)
    requires
        owned_but(q, batch, ps),
        recorded(q),
    ensures
        ({
            let t = q.joined(batch, entry);
            &&& owned_but(t, batch, ps)
            &&& recorded(t)
            &&& t.items.dom() =~= q.items.dom()
            &&& q.items.contains_key(batch) ==> {
                &&& holds_version(t.list(entry.path), batch, entry.version)
                &&& t.items[batch].entries.dom() =~= q.items[batch].entries.dom().insert(
                    entry.path,
                )
                &&& forall|p: Seq<u8>, b: BatchId, v: Vector| #[trigger]
                    holds_version(q.list(p), b, v) ==> holds_version(t.list(p), b, v)
            }
        }),
{
    if q.items.contains_key(batch) {
        let wide = ps.insert(entry.path);
        assert(owned_but(q, batch, wide));
        lemma_recording(q, entry.path, entry.version, entry.stamp, batch, wide);
        let s = q.recorded(entry.path, entry.version, entry.stamp, batch);
        let t = q.joined(batch, entry);
        assert(t.versions == s.versions);
        assert forall|p: Seq<u8>| #[trigger] t.list(p) == s.list(p) by {}
        assert forall|p: Seq<u8>, i: int| 0 <= i < t.list(p).len() implies {
            let b = (#[trigger] t.list(p)[i]).0;
            (t.items.contains_key(b) && t.items[b].entries.contains_key(p)) || (b == batch
                && ps.contains(p))
        } by {
            assert(t.list(p)[i] == s.list(p)[i]);
            let b = s.list(p)[i].0;
            assert(t.items.contains_key(b) == s.items.contains_key(b));
        }
        assert forall|b: BatchId, p: Seq<u8>|
            t.items.contains_key(b) && (#[trigger] t.items[b].entries.contains_key(
                p,
            )) implies holds_version(t.list(p), b, t.items[b].entries[p].version) by {
            if b == batch && p == entry.path && t.items[b].entries[p] == entry {
            } else {
                assert(q.items[b].entries.contains_key(p));
                assert(holds_version(q.list(p), b, q.items[b].entries[p].version));
                assert(holds_version(s.list(p), b, q.items[b].entries[p].version));
            }
        }
    } else {
        assert(q.joined(batch, entry) == q);
    }
}

/// Entries that join keep the quarantine filed.
pub proof fn law_joins_filed(
    q: QuarantineView,
    entries: Map<Seq<u8>, EntryView>,
    ks: Seq<Seq<u8>>,
    batch: BatchId,
)
    requires
        filed(q),
    ensures
        filed(q.joined_all(entries, ks, batch)),
{
    lemma_joining_all(q, entries, ks, batch, Set::empty());
}

proof fn lemma_joining_all(
    q: QuarantineView,
    entries: Map<Seq<u8>, EntryView>,
    ks: Seq<Seq<u8>>,
    batch: BatchId,
    ps: Set<Seq<u8>>,
)
    requires
        owned_but(q, batch, ps),
        recorded(q),
    ensures
        ({
            let t = q.joined_all(entries, ks, batch);
            &&& owned_but(t, batch, ps)
            &&& recorded(t)
            &&& t.items.dom() =~= q.items.dom()
            &&& q.items.contains_key(batch) ==> {
                &&& forall|p: Seq<u8>| #[trigger]
                    q.items[batch].entries.contains_key(p) ==> t.items[batch].entries.contains_key(
                        p,
                    )
                &&& forall|i: int|
                    0 <= i < ks.len() ==> t.items[batch].entries.contains_key(
                        entries[#[trigger] ks[i]].path,
                    ) && holds_version(
                        t.list(entries[ks[i]].path),
                        batch,
                        entries[ks[i]].version,
                    )
            }
        }),
    decreases ks.len(),
{
    if ks.len() > 0 {
        let r = ks.drop_last();
        lemma_joining_all(q, entries, r, batch, ps);
        let s = q.joined_all(entries, r, batch);
        let e = entries[ks.last()];
        lemma_joining(s, batch, e, ps);
        let t = q.joined_all(entries, ks, batch);
        if q.items.contains_key(batch) {
            assert(s.items.dom().contains(batch));
            assert(s.items.contains_key(batch));
            assert forall|p: Seq<u8>| #[trigger]
                q.items[batch].entries.contains_key(p) implies t.items[batch].entries.contains_key(
                p,
            ) by {
                assert(s.items[batch].entries.contains_key(p));
                assert(t.items[batch].entries.dom().contains(p));
            }
            assert forall|i: int| 0 <= i < ks.len() implies t.items[batch].entries.contains_key(
                entries[#[trigger] ks[i]].path,
            ) && holds_version(
                t.list(entries[ks[i]].path),
                batch,
                entries[ks[i]].version,
            ) by {
                if i < r.len() {
                    assert(r[i] == ks[i]);
                    assert(s.items[batch].entries.contains_key(entries[r[i]].path));
                    assert(holds_version(
                        s.list(entries[r[i]].path),
                        batch,
                        entries[r[i]].version,
                    ));
                }
                assert(t.items[batch].entries.dom().contains(entries[ks[i]].path));
            }
        }
    }
}

proof fn lemma_recording_all(
    q: QuarantineView,
    entries: Map<Seq<u8>, EntryView>,
    ks: Seq<Seq<u8>>,
    batch: BatchId,
    ps: Set<Seq<u8>>,
)
    requires
        owned_but(q, batch, ps),
        recorded(q),
        forall|i: int|
            0 <= i < ks.len() ==> ps.contains(#[trigger] ks[i]) && entries[ks[i]].path == ks[i],
    ensures
        ({
            let t = q.recorded_all(entries, ks, batch);
            &&& owned_but(t, batch, ps)
            &&& recorded(t)
            &&& t.items == q.items
            &&& forall|i: int|
                0 <= i < ks.len() ==> holds_version(
                    t.list(#[trigger] ks[i]),
                    batch,
                    entries[ks[i]].version,
                )
        }),
    decreases ks.len(),
{
    if ks.len() > 0 {
        let r = ks.drop_last();
        assert forall|i: int| 0 <= i < r.len() implies ps.contains(#[trigger] r[i])
            && entries[r[i]].path == r[i] by {
            assert(ps.contains(ks[i]));
        }
        lemma_recording_all(q, entries, r, batch, ps);
        let s = q.recorded_all(entries, r, batch);
        let e = entries[ks.last()];
        assert(ps.contains(ks[ks.len() - 1]));
        lemma_recording(s, e.path, e.version, e.stamp, batch, ps);
        let t = q.recorded_all(entries, ks, batch);
        assert forall|i: int| 0 <= i < ks.len() implies holds_version(
            t.list(#[trigger] ks[i]),
            batch,
            entries[ks[i]].version,
        ) by {
            if i < r.len() {
                assert(holds_version(s.list(r[i]), batch, entries[r[i]].version));
            }
        }
    }
}

/// Holding keeps the quarantine filed, under a new identifier or one that is held already; every
/// entry of the item is held under it, and recorded.
pub proof fn law_hold_filed(q: QuarantineView, item: HeldItemView)
    requires
        filed(q),
        item_sound(item),
    ensures
        filed(q.held(item)),
        q.held(item).items.contains_key(item.batch),
        forall|p: Seq<u8>| #[trigger]
            item.entries.contains_key(p) ==> q.held(item).items[item.batch].entries.contains_key(p)
                && holds_version(q.held(item).list(p), item.batch, item.entries[p].version),
        !q.items.contains_key(item.batch) ==> q.held(item).items[item.batch] == item,
{
    lemma_holding(q, item, Set::empty());
}

proof fn lemma_holding(q: QuarantineView, item: HeldItemView, ps: Set<Seq<u8>>)
    requires
        owned_but(q, item.batch, ps),
        recorded(q),
        item_sound(item),
        ps.subset_of(item.entries.dom()),
    ensures
        filed(q.held(item)),
        q.held(item).items.contains_key(item.batch),
        forall|p: Seq<u8>| #[trigger]
            item.entries.contains_key(p) ==> q.held(item).items[item.batch].entries.contains_key(p)
                && holds_version(q.held(item).list(p), item.batch, item.entries[p].version),
        !q.items.contains_key(item.batch) ==> q.held(item).items[item.batch] == item,
{
    let batch = item.batch;
    let ks = in_order(item.entries.dom());
    lemma_order_facts(item.entries.dom());
    let all = item.entries.dom();
    let t = q.held(item);
    assert forall|i: int| 0 <= i < ks.len() implies all.contains(#[trigger] ks[i])
        && item.entries[ks[i]].path == ks[i] by {
        assert(item.entries.contains_key(ks[i]));
    }
    assert(owned_but(q, batch, all));
    if q.items.contains_key(batch) {
        lemma_joining_all(q, item.entries, ks, batch, all);
        assert(t == q.joined_all(item.entries, ks, batch));
        assert(t.items.dom().contains(batch));
        assert forall|p: Seq<u8>| #[trigger]
            item.entries.contains_key(p) implies t.items[batch].entries.contains_key(p)
            && holds_version(t.list(p), batch, item.entries[p].version) by {
            assert(all.contains(p));
            let i = choose|i: int| 0 <= i < ks.len() && ks[i] == p;
            assert(t.items[batch].entries.contains_key(item.entries[ks[i]].path));
        }
        assert forall|p: Seq<u8>, i: int| 0 <= i < t.list(p).len() implies {
            let b = (#[trigger] t.list(p)[i]).0;
            t.items.contains_key(b) && t.items[b].entries.contains_key(p)
        } by {
            if all.contains(p) {
                assert(item.entries.contains_key(p));
            }
        }
    } else {
        lemma_recording_all(q, item.entries, ks, batch, all);
        let s = q.recorded_all(item.entries, ks, batch);
        assert(t.versions == s.versions);
        assert forall|p: Seq<u8>| #[trigger] t.list(p) == s.list(p) by {}
        assert forall|p: Seq<u8>| #[trigger] item.entries.contains_key(p) implies holds_version(
            t.list(p),
            batch,
            item.entries[p].version,
        ) by {
            assert(all.contains(p));
            let i = choose|i: int| 0 <= i < ks.len() && ks[i] == p;
            assert(holds_version(s.list(ks[i]), batch, item.entries[ks[i]].version));
        }
        assert forall|p: Seq<u8>, i: int| 0 <= i < t.list(p).len() implies {
            let b = (#[trigger] t.list(p)[i]).0;
            t.items.contains_key(b) && t.items[b].entries.contains_key(p)
        } by {
            assert(t.list(p)[i] == s.list(p)[i]);
            let b = s.list(p)[i].0;
            if b == batch {
                assert(all.contains(p));
            }
        }
        assert forall|b: BatchId, p: Seq<u8>|
            t.items.contains_key(b) && (#[trigger] t.items[b].entries.contains_key(
                p,
            )) implies holds_version(t.list(p), b, t.items[b].entries[p].version) by {
            if b != batch {
                assert(s.items[b].entries.contains_key(p));
            }
        }
    }
}

// ---- releasing and denying --------------------------------------------------

proof fn lemma_without_keeps(list: Arrivals, batch: BatchId)
    ensures
        forall|i: int|
            0 <= i < without(list, batch).len() ==> (#[trigger] without(list, batch)[i]).0 != batch
                && list.contains(without(list, batch)[i]),
        forall|i: int|
            0 <= i < list.len() && (#[trigger] list[i]).0 != batch ==> without(
                list,
                batch,
            ).contains(list[i]),
    decreases list.len(),
{
    if list.len() > 0 {
        let t = list.drop_last();
        lemma_without_keeps(t, batch);
        let a = without(t, batch);
        let b = without(list, batch);
        let x = list.last();
        assert(list[list.len() - 1] == x);
        assert forall|i: int| 0 <= i < b.len() implies (#[trigger] b[i]).0 != batch
            && list.contains(b[i]) by {
            if i < a.len() {
                assert(b[i] == a[i]);
                let k = choose|k: int| 0 <= k < t.len() && t[k] == a[i];
                assert(list[k] == b[i]);
            }
        }
        assert forall|i: int| 0 <= i < list.len() && (#[trigger] list[i]).0 != batch implies
            b.contains(list[i]) by {
            if i < t.len() {
                assert(t[i] == list[i]);
                let k = choose|k: int| 0 <= k < a.len() && a[k] == t[i];
                assert(b[k] == list[i]);
            } else {
                assert(b[b.len() - 1] == x);
            }
        }
    }
}

/// Releasing keeps the quarantine filed, and leaves no version of the released item.
pub proof fn law_release_filed(q: QuarantineView, batch: BatchId)
    requires
        filed(q),
    ensures
        filed(q.released(batch)),
        !q.released(batch).items.contains_key(batch),
        forall|p: Seq<u8>, i: int|
            0 <= i < q.released(batch).list(p).len() ==> (#[trigger] q.released(batch).list(
                p,
            )[i]).0 != batch,
{
    let t = q.released(batch);
    if q.items.contains_key(batch) {
        let es = q.items[batch].entries;
        assert forall|p: Seq<u8>| #[trigger] t.list(p) == if es.contains_key(p) {
            without(q.list(p), batch)
        } else {
            q.list(p)
        } by {
            if q.versions.contains_key(p) {
                if es.contains_key(p) {
                    assert(without(q.versions[p], batch).len() == 0 ==> t.list(p) =~= without(
                        q.versions[p],
                        batch,
                    ));
                }
            } else {
                assert(without(q.list(p), batch) =~= Seq::empty());
            }
        }
        assert forall|p: Seq<u8>, i: int| 0 <= i < t.list(p).len() implies {
            let b = (#[trigger] t.list(p)[i]).0;
            b != batch && t.items.contains_key(b) && t.items[b].entries.contains_key(p)
        } by {
            lemma_without_keeps(q.list(p), batch);
            let x = t.list(p)[i];
            assert(q.list(p).contains(x));
            let k = choose|k: int| 0 <= k < q.list(p).len() && q.list(p)[k] == x;
            assert(q.list(p)[k].0 == x.0);
        }
        assert forall|b: BatchId, p: Seq<u8>|
            t.items.contains_key(b) && (#[trigger] t.items[b].entries.contains_key(
                p,
            )) implies holds_version(t.list(p), b, t.items[b].entries[p].version) by {
            assert(q.items[b].entries.contains_key(p));
            let v = q.items[b].entries[p].version;
            assert(holds_version(q.list(p), b, v));
            let i = choose|i: int|
                0 <= i < q.list(p).len() && (#[trigger] q.list(p)[i]).0 == b && q.list(
                    p,
                )[i].1.version == v;
            lemma_without_keeps(q.list(p), batch);
            assert(t.list(p).contains(q.list(p)[i]));
            let k = choose|k: int| 0 <= k < t.list(p).len() && t.list(p)[k] == q.list(p)[i];
            assert(t.list(p)[k].0 == b);
        }
    } else {
        assert forall|p: Seq<u8>, i: int| 0 <= i < t.list(p).len() implies (#[trigger] t.list(
            p,
        )[i]).0 != batch by {
            let b = q.list(p)[i].0;
        }
    }
}

/// Denying keeps the quarantine filed; what was denied can be put back.
pub proof fn law_denial_filed(q: QuarantineView, batch: BatchId)
    requires
        filed(q),
    ensures
        filed(q.denial(batch)),
        !q.denial(batch).items.contains_key(batch),
{
    law_release_filed(q, batch);
    if q.items.contains_key(batch) {
        let s = q.released(batch);
        let t = q.denial(batch);
        let row = q.row(batch)->0;
        assert(row.versions.dom() =~= row.item.entries.dom());
        assert(t.versions == s.versions && t.items == s.items);
        assert forall|p: Seq<u8>| #[trigger] t.list(p) == s.list(p) by {}
        assert forall|p: Seq<u8>, i: int| 0 <= i < t.list(p).len() implies {
            let b = (#[trigger] t.list(p)[i]).0;
            t.items.contains_key(b) && t.items[b].entries.contains_key(p)
        } by {
            assert(t.list(p)[i] == s.list(p)[i]);
        }
        assert forall|b: BatchId, p: Seq<u8>|
            t.items.contains_key(b) && (#[trigger] t.items[b].entries.contains_key(
                p,
            )) implies holds_version(t.list(p), b, t.items[b].entries[p].version) by {
            assert(s.items[b].entries.contains_key(p));
        }
    }
}

// ---- putting back -----------------------------------------------------------

proof fn lemma_recording_again(
    q: QuarantineView,
    path: Seq<u8>,
    list: Seq<QuarantinedView>,
    batch: BatchId,
    ps: Set<Seq<u8>>,
)
    requires
        owned_but(q, batch, ps),
        recorded(q),
        ps.contains(path),
    ensures
        owned_but(q.recorded_again(path, list, batch), batch, ps),
        recorded(q.recorded_again(path, list, batch)),
        q.recorded_again(path, list, batch).items == q.items,
    decreases list.len(),
{
    if list.len() > 0 {
        lemma_recording_again(q, path, list.drop_last(), batch, ps);
        lemma_recording(
            q.recorded_again(path, list.drop_last(), batch),
            path,
            list.last().version,
            list.last().stamp,
            batch,
            ps,
        );
    }
}

proof fn lemma_recording_rows(
    q: QuarantineView,
    versions: Map<Seq<u8>, Seq<QuarantinedView>>,
    ks: Seq<Seq<u8>>,
    batch: BatchId,
    ps: Set<Seq<u8>>,
)
    requires
        owned_but(q, batch, ps),
        recorded(q),
        forall|i: int| 0 <= i < ks.len() ==> ps.contains(#[trigger] ks[i]),
    ensures
        owned_but(q.recorded_rows(versions, ks, batch), batch, ps),
        recorded(q.recorded_rows(versions, ks, batch)),
        q.recorded_rows(versions, ks, batch).items == q.items,
    decreases ks.len(),
{
    if ks.len() > 0 {
        let r = ks.drop_last();
        assert forall|i: int| 0 <= i < r.len() implies ps.contains(#[trigger] r[i]) by {
            assert(ps.contains(ks[i]));
        }
        lemma_recording_rows(q, versions, r, batch, ps);
        assert(ps.contains(ks[ks.len() - 1]));
        lemma_recording_again(
            q.recorded_rows(versions, r, batch),
            ks.last(),
            versions[ks.last()],
            batch,
            ps,
        );
    }
}

proof fn lemma_returning(q: QuarantineView, denied: Map<u64, HeldRowView>, ks: Seq<u64>)
    requires
        filed(q),
        forall|i: int| 0 <= i < ks.len() ==> row_filed(denied[#[trigger] ks[i]]),
    ensures
        filed(q.returned(denied, ks)),
    decreases ks.len(),
{
    if ks.len() > 0 {
        let r = ks.drop_last();
        assert forall|i: int| 0 <= i < r.len() implies row_filed(denied[#[trigger] r[i]]) by {
            assert(row_filed(denied[ks[i]]));
        }
        lemma_returning(q, denied, r);
        let row = denied[ks.last()];
        assert(row_filed(denied[ks[ks.len() - 1]]));
        let s0 = q.returned(denied, r);
        let s = s0.noted(
            row.item.batch,
            crate::quarantine::HeldState::Denied { at: ks.last() },
        );
        assert forall|p: Seq<u8>| #[trigger] s.list(p) == s0.list(p) by {}
        assert(filed(s)) by {
            assert forall|p: Seq<u8>, i: int| 0 <= i < s.list(p).len() implies {
                let b = (#[trigger] s.list(p)[i]).0;
                s.items.contains_key(b) && s.items[b].entries.contains_key(p)
            } by {
                assert(s.list(p)[i] == s0.list(p)[i]);
            }
            assert forall|b: BatchId, p: Seq<u8>|
                s.items.contains_key(b) && (#[trigger] s.items[b].entries.contains_key(
                    p,
                )) implies holds_version(s.list(p), b, s.items[b].entries[p].version) by {
                assert(s0.items[b].entries.contains_key(p));
            }
        }
        let ps = row.item.entries.dom();
        let vs = in_order(row.versions.dom());
        lemma_order_facts(row.versions.dom());
        assert forall|i: int| 0 <= i < vs.len() implies ps.contains(#[trigger] vs[i]) by {
            assert(row.versions.dom().contains(vs[i]));
        }
        assert(owned_but(s, row.item.batch, ps));
        lemma_recording_rows(s, row.versions, vs, row.item.batch, ps);
        lemma_holding(s.recorded_rows(row.versions, vs, row.item.batch), row.item, ps);
    }
}

/// Putting denied items back keeps the quarantine filed, and so does forgetting them.
pub proof fn law_return_filed(q: QuarantineView)
    requires
        filed(q),
    ensures
        filed(q.all_returned()),
        filed(q.forgotten()),
{
    let s = QuarantineView { denied: Map::empty(), ..q };
    let t = q.forgotten();
    assert forall|p: Seq<u8>| #[trigger] s.list(p) == q.list(p) by {}
    assert forall|p: Seq<u8>| #[trigger] t.list(p) == q.list(p) by {}
    assert forall|b: BatchId, p: Seq<u8>|
        s.items.contains_key(b) && (#[trigger] s.items[b].entries.contains_key(
            p,
        )) implies holds_version(s.list(p), b, s.items[b].entries[p].version) by {
        assert(q.items[b].entries.contains_key(p));
    }
    assert(owned(s)) by {
        assert forall|p: Seq<u8>, i: int| 0 <= i < s.list(p).len() implies {
            let b = (#[trigger] s.list(p)[i]).0;
            s.items.contains_key(b) && s.items[b].entries.contains_key(p)
        } by {
            assert(s.list(p)[i] == q.list(p)[i]);
        }
    }
    assert(owned(t)) by {
        assert forall|p: Seq<u8>, i: int| 0 <= i < t.list(p).len() implies {
            let b = (#[trigger] t.list(p)[i]).0;
            t.items.contains_key(b) && t.items[b].entries.contains_key(p)
        } by {
            assert(t.list(p)[i] == q.list(p)[i]);
        }
    }
    assert(recorded(t)) by {
        assert forall|b: BatchId, p: Seq<u8>|
            t.items.contains_key(b) && (#[trigger] t.items[b].entries.contains_key(
                p,
            )) implies holds_version(t.list(p), b, t.items[b].entries[p].version) by {
            assert(q.items[b].entries.contains_key(p));
        }
    }
    let ks = in_order(q.denied.dom());
    lemma_order_facts(q.denied.dom());
    assert forall|i: int| 0 <= i < ks.len() implies row_filed(q.denied[#[trigger] ks[i]]) by {
        assert(q.denied.dom().contains(ks[i]));
        assert(q.denied.contains_key(ks[i]));
    }
    lemma_returning(s, q.denied, ks);
}

} // verus!
