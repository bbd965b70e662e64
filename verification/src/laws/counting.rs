//! What the brake counts, and when it holds: in numbers of items and bytes, whatever their order.

use crate::batch::{summary_of, ApplyMode, ItemView, Summary};
use crate::brake::{verdict, weight, HoldReason, Verdict};
use crate::entry::Kind;
use crate::index::{tracked_among, ChangeKind, IndexView, RecordView};
use crate::order::{in_order, lemma_order_facts};
use crate::rules::Rules;
use vstd::prelude::*;

verus! {

/// A number held at the end of the range of counts.
pub open spec fn held_at_end(n: int) -> int {
    if n > u64::MAX {
        u64::MAX as int
    } else {
        n
    }
}

/// Whether a live record stands at a path.
pub open spec fn stands(s: IndexView, p: Seq<u8>) -> bool {
    s.records.contains_key(p) && !s.records[p].entry.deleted
}

/// Whether an item touches content on disk.
pub open spec fn substantial(item: ItemView) -> bool {
    item.mode == ApplyMode::Fetch || item.mode == ApplyMode::Direct
}

/// Whether an item puts something where nothing is.
pub open spec fn adds(s: IndexView, item: ItemView) -> bool {
    substantial(item) && !item.entry.deleted && !stands(s, item.entry.path)
}

/// Whether an item puts something in the place of what is there.
pub open spec fn overwrites(s: IndexView, item: ItemView) -> bool {
    substantial(item) && !item.entry.deleted && stands(s, item.entry.path)
}

/// Whether an item deletes a file or a symlink that is there.
pub open spec fn deletes(s: IndexView, item: ItemView) -> bool {
    substantial(item) && item.entry.deleted && stands(s, item.entry.path)
        && s.records[item.entry.path].entry.kind != Kind::Dir
}

/// The bytes of some items.
pub open spec fn bytes_of(items: Seq<ItemView>) -> nat {
    items.fold_left(0nat, |n: nat, item: ItemView| n + item.entry.size as nat)
}

/// How many of some items there are of a sort.
pub open spec fn how_many<A>(l: Seq<A>, sort: spec_fn(A) -> bool) -> nat {
    l.filter(sort).len()
}

/// What a batch counts as here is the number of items that add, overwrite and delete something,
/// and the bytes of those that add or overwrite, whatever was there before and however large it
/// was. Counts are held at the end of their range.
pub proof fn law_receiver_counts(s: IndexView, items: Seq<ItemView>)
    ensures
        ({
            let w = weight(s, items);
            &&& w.adds == held_at_end(how_many(items, |i: ItemView| adds(s, i)) as int)
            &&& w.mods == held_at_end(how_many(items, |i: ItemView| overwrites(s, i)) as int)
            &&& w.dels == held_at_end(how_many(items, |i: ItemView| deletes(s, i)) as int)
            &&& w.bytes == held_at_end(
                bytes_of(items.filter(|i: ItemView| adds(s, i) || overwrites(s, i))) as int,
            )
        }),
    decreases items.len(),
{
    reveal(Seq::filter);
    let writes = |i: ItemView| adds(s, i) || overwrites(s, i);
    if items.len() > 0 {
        let t = items.drop_last();
        law_receiver_counts(s, t);
        let x = items.last();
        let b = t.filter(writes);
        if writes(x) {
            assert(b.push(x).drop_last() =~= b);
            assert(bytes_of(b.push(x)) == bytes_of(b) + x.entry.size);
        }
    }
}

/// How many entries a folder tracks: the paths where a file or a symlink stands.
pub open spec fn tracked_paths(s: IndexView) -> Set<Seq<u8>> {
    s.records.dom().filter(|p: Seq<u8>| stands(s, p) && s.records[p].entry.kind != Kind::Dir)
}

proof fn lemma_tracked_among(s: IndexView, ks: Seq<Seq<u8>>)
    requires
        ks.no_duplicates(),
        forall|i: int| 0 <= i < ks.len() ==> s.records.contains_key(#[trigger] ks[i]),
    ensures
        ({
            let t = ks.to_set().filter(
                |p: Seq<u8>| stands(s, p) && s.records[p].entry.kind != Kind::Dir,
            );
            t.finite() && tracked_among(s.records, ks) == t.len()
        }),
    decreases ks.len(),
{
    let f = |p: Seq<u8>| stands(s, p) && s.records[p].entry.kind != Kind::Dir;
    if ks.len() == 0 {
        assert(ks.to_set().filter(f) =~= Set::empty());
    } else {
        let t = ks.drop_last();
        let x = ks.last();
        lemma_tracked_among(s, t);
        assert(ks[ks.len() - 1] == x);
        assert(t.to_set().insert(x) =~= ks.to_set()) by {
            assert forall|p: Seq<u8>| ks.to_set().contains(p) implies t.to_set().insert(
                x,
            ).contains(p) by {
                let i = choose|i: int| 0 <= i < ks.len() && ks[i] == p;
                if i < t.len() {
                    assert(t[i] == p);
                }
            }
            assert forall|p: Seq<u8>| t.to_set().insert(x).contains(p) implies ks.to_set().contains(
                p,
            ) by {
                if p != x {
                    let i = choose|i: int| 0 <= i < t.len() && t[i] == p;
                    assert(ks[i] == p);
                }
            }
        }
        assert(!t.contains(x)) by {
            if t.contains(x) {
                let i = choose|i: int| 0 <= i < t.len() && t[i] == x;
                assert(ks[i] == ks[ks.len() - 1]);
            }
        }
        if f(x) {
            assert(ks.to_set().filter(f) =~= t.to_set().filter(f).insert(x));
        } else {
            assert(ks.to_set().filter(f) =~= t.to_set().filter(f));
        }
    }
}

/// What is tracked is counted path by path: files and symlinks that are there, and nothing else.
pub proof fn law_tracked_are_counted(s: IndexView)
    requires
        s.records.dom().finite(),
    ensures
        tracked_paths(s).finite(),
        s.tracked_count() == tracked_paths(s).len(),
        s.announced().announced_tracked == tracked_paths(s).len(),
{
    lemma_order_facts(s.records.dom());
    let ks = in_order(s.records.dom());
    assert(ks.to_set() =~= s.records.dom());
    lemma_tracked_among(s, ks);
}

/// The changes that a batch of this machine counts: those of some kind, and all but the adds only
/// where the content is another than peers last saw.
pub open spec fn counts_as(r: (RecordView, Option<ChangeKind>), kind: ChangeKind) -> bool {
    r.1 == Some(kind) && (kind == ChangeKind::Add || r.0.entry.hash != r.0.entry.prev_hash)
}

/// The bytes of some records.
pub open spec fn bytes_in(l: Seq<(RecordView, Option<ChangeKind>)>) -> nat {
    l.fold_left(0nat, |n: nat, r: (RecordView, Option<ChangeKind>)| n + r.0.entry.size as nat)
}

/// What a batch of this machine counts as is the number of its adds, of its modifications and
/// deletions that change content, and the bytes of the adds and modifications counted.
pub proof fn law_sender_counts(l: Seq<(RecordView, Option<ChangeKind>)>)
    ensures
        ({
            let w = summary_of(l);
            &&& w.adds == held_at_end(how_many(l, |r| counts_as(r, ChangeKind::Add)) as int)
            &&& w.mods == held_at_end(how_many(l, |r| counts_as(r, ChangeKind::Modify)) as int)
            &&& w.dels == held_at_end(how_many(l, |r| counts_as(r, ChangeKind::Delete)) as int)
            &&& w.bytes == held_at_end(
                bytes_in(
                    l.filter(
                        |r| counts_as(r, ChangeKind::Add) || counts_as(r, ChangeKind::Modify),
                    ),
                ) as int,
            )
        }),
    decreases l.len(),
{
    reveal(Seq::filter);
    let writes = |r: (RecordView, Option<ChangeKind>)|
        counts_as(r, ChangeKind::Add) || counts_as(r, ChangeKind::Modify);
    if l.len() > 0 {
        let t = l.drop_last();
        law_sender_counts(t);
        let x = l.last();
        let b = t.filter(writes);
        if writes(x) {
            assert(b.push(x).drop_last() =~= b);
            assert(bytes_in(b.push(x)) == bytes_in(b) + x.0.entry.size);
        }
    }
}

/// Whether so many deletions and modifications among so many tracked entries are too many.
pub open spec fn too_many(rules: Rules, destroyed: int, present: int) -> bool {
    &&& rules.hold_count > 0
    &&& present > 0
    &&& destroyed >= rules.hold_count
    &&& held_at_end(destroyed * 100) >= held_at_end(rules.hold_pct * present)
}

/// The brake holds on the number of deletions and modifications together, or on the bytes, and
/// says which and how much; the number counts first. Nothing else holds a batch.
pub proof fn law_brake_holds_exactly(rules: Rules, w: Summary, present: usize)
    ensures
        ({
            let n = held_at_end(w.dels + w.mods);
            match verdict(rules, w, present) {
                Verdict::Hold(HoldReason::Count { destructive, tracked_before }) => too_many(
                    rules,
                    n,
                    present as int,
                ) && destructive == n && tracked_before == present,
                Verdict::Hold(HoldReason::Size { bytes }) => !too_many(rules, n, present as int)
                    && w.bytes > rules.hold_size && bytes == w.bytes,
                Verdict::Pass => !too_many(rules, n, present as int) && w.bytes
                    <= rules.hold_size,
            }
        }),
{
    let n = held_at_end(w.dels + w.mods);
    assert(rules.hold_pct * present >= 0) by (nonlinear_arith);
}

/// Whether some items are too many, or too large, for an index.
pub open spec fn too_much(rules: Rules, s: IndexView, items: Seq<ItemView>) -> bool {
    too_many(
        rules,
        held_at_end(
            how_many(items, |i: ItemView| overwrites(s, i)) as int + how_many(
                items,
                |i: ItemView| deletes(s, i),
            ) as int,
        ),
        tracked_paths(s).len() as int,
    ) || held_at_end(
        bytes_of(items.filter(|i: ItemView| adds(s, i) || overwrites(s, i))) as int,
    ) > rules.hold_size
}

/// What is weighed against an index is held exactly if it is too much.
pub proof fn law_too_much_is_held(rules: Rules, s: IndexView, items: Seq<ItemView>)
    requires
        s.records.dom().finite(),
        tracked_paths(s).len() <= usize::MAX,
    ensures
        verdict(rules, weight(s, items), s.tracked_count() as usize) is Hold <==> too_much(
            rules,
            s,
            items,
        ),
{
    law_receiver_counts(s, items);
    law_tracked_are_counted(s);
    law_brake_holds_exactly(rules, weight(s, items), s.tracked_count() as usize);
}

} // verus!
