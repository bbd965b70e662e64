//! What an incoming entry comes to: ignored, applied as it is, or merged with what is there.

use crate::batch::{
    apply_set_of, classified, items_among, last_by_path, ApplyMode, BatchView, ItemView,
};
use crate::conflict::{
    claim, copy_name, copy_path, cut_len, cut_to, fitted, kind_rank, last_dot, preferred_of,
    resolved, residue, stem_len, suffix_of, who, winner_of, ConflictCopyView, Side,
};
use crate::entry::{EntryView, Kind};
use crate::id::NodeId;
use crate::index::IndexView;
use crate::laws::counting::stands;
use crate::laws::sourcing::holds_all;
use crate::order::{in_order, lemma_order_facts, Ordered};
use crate::path::name_of;
use crate::text::hex_text;
use crate::time::utc_text;
use crate::version::{counter_of, join};
use vstd::prelude::*;
use vstd::utf8::{encode_utf8, is_char_boundary};

verus! {

/// Whether two entries show the same on disk, but for the time: nothing in both cases, or the same
/// kind with the same content and, of a file, the same executable bit.
pub open spec fn looks_alike(a: EntryView, b: EntryView) -> bool {
    (a.deleted && b.deleted) || (!a.deleted && !b.deleted && a.kind == b.kind && a.hash == b.hash
        && (a.kind == Kind::File ==> a.executable == b.executable))
}

/// Having the same content is showing the same on disk, and a change of metadata is one whose hash
/// is what it was.
pub proof fn law_same_content_exactly(a: EntryView, b: EntryView)
    ensures
        a.same_content(b) <==> looks_alike(a, b),
        a.metadata_only() <==> a.hash == a.prev_hash,
        a.observed().kind == a.kind,
        a.observed().size == a.size,
        a.observed().mtime_ns == a.mtime_ns,
        a.observed().executable == a.executable,
        a.observed().hash == a.hash,
{
}

/// Whether the fields of one entry beat those of another: the later stamp; then one that is there
/// over a tombstone; then a change of content over a touch; then the later time; then the larger
/// author; then the larger hash.
pub open spec fn beats(a: EntryView, b: EntryView) -> bool {
    let at = a.hash != a.prev_hash;
    let bt = b.hash != b.prev_hash;
    ||| a.stamp > b.stamp
    ||| a.stamp == b.stamp && {
        ||| !a.deleted && b.deleted
        ||| a.deleted == b.deleted && {
            ||| at && !bt
            ||| at == bt && {
                ||| a.mtime_ns > b.mtime_ns
                ||| a.mtime_ns == b.mtime_ns && {
                    ||| b.modified_by.before(a.modified_by)
                    ||| a.modified_by == b.modified_by && b.hash.before(a.hash)
                }
            }
        }
    }
}

/// Whether only the last rule can tell two entries apart.
pub open spec fn level(a: EntryView, b: EntryView) -> bool {
    &&& a.stamp == b.stamp
    &&& a.deleted == b.deleted
    &&& (a.hash == a.prev_hash) == (b.hash == b.prev_hash)
    &&& a.mtime_ns == b.mtime_ns
    &&& a.modified_by == b.modified_by
}

/// The side whose fields beat the other's wins; and it is said whether only the last rule told the
/// two apart. Where the two are level to the hash, the kind decides, then the executable bit, the
/// size, the hash before and the author's host.
pub proof fn law_winner_exactly(a: EntryView, b: EntryView)
    ensures
        beats(a, b) ==> winner_of(a, b).side == Side::First,
        beats(b, a) ==> winner_of(a, b).side == Side::Second,
        winner_of(a, b).fallback <==> level(a, b),
        level(a, b) && a.hash == b.hash ==> {
            &&& kind_rank(a.kind) > kind_rank(b.kind) ==> winner_of(a, b).side == Side::First
            &&& kind_rank(a.kind) < kind_rank(b.kind) ==> winner_of(a, b).side == Side::Second
            &&& a.kind == b.kind && a.executable && !b.executable ==> winner_of(a, b).side
                == Side::First
            &&& a.kind == b.kind && a.executable == b.executable && a.size > b.size
                ==> winner_of(a, b).side == Side::First
            &&& a.kind == b.kind && a.executable == b.executable && a.size == b.size
                && b.prev_hash.before(a.prev_hash) ==> winner_of(a, b).side == Side::First
            &&& a.kind == b.kind && a.executable == b.executable && a.size == b.size
                && a.prev_hash == b.prev_hash && b.author_host.before(a.author_host)
                ==> winner_of(a, b).side == Side::First
        },
        kind_rank(Kind::File) < kind_rank(Kind::Dir) < kind_rank(Kind::Symlink),
{
    let x = (claim(a), residue(a));
    let y = (claim(b), residue(b));
    Ordered::irreflexive(x);
    if x.before(y) && y.before(x) {
        Ordered::transitive(x, y, x);
    }
    Ordered::irreflexive(a.modified_by);
    Ordered::irreflexive(a.hash);
    Ordered::irreflexive(a.prev_hash);
    Ordered::irreflexive(a.author_host);
    if a.modified_by.before(b.modified_by) && b.modified_by.before(a.modified_by) {
        Ordered::transitive(a.modified_by, b.modified_by, a.modified_by);
    }
    if a.hash.before(b.hash) && b.hash.before(a.hash) {
        Ordered::transitive(a.hash, b.hash, a.hash);
    }
    if beats(b, a) {
        assert(x.before(y));
    }
    if beats(a, b) {
        assert(y.before(x));
    }
    if level(a, b) && a.hash == b.hash {
        assert(claim(a) == claim(b));
        if kind_rank(a.kind) < kind_rank(b.kind) {
            assert(x.before(y));
        } else if kind_rank(a.kind) > kind_rank(b.kind) {
            assert(y.before(x));
        } else if a.executable && !b.executable {
            assert(y.before(x));
        } else if a.executable == b.executable && a.size > b.size {
            assert(y.before(x));
        } else if a.executable == b.executable && a.size == b.size && b.prev_hash.before(
            a.prev_hash,
        ) {
            assert(y.before(x));
        } else if a.executable == b.executable && a.size == b.size && a.prev_hash == b.prev_hash
            && b.author_host.before(a.author_host) {
            assert(y.before(x));
        }
    }
}

/// Of two entries with the same content the one with the later time is preferred, then the one of
/// the larger author.
pub proof fn law_preference_exactly(a: EntryView, b: EntryView)
    ensures
        a.mtime_ns > b.mtime_ns ==> preferred_of(a, b).side == Side::First,
        a.mtime_ns < b.mtime_ns ==> preferred_of(a, b).side == Side::Second,
        a.mtime_ns == b.mtime_ns && b.modified_by.before(a.modified_by) ==> preferred_of(
            a,
            b,
        ).side == Side::First,
        a.mtime_ns == b.mtime_ns && a.modified_by.before(b.modified_by) ==> preferred_of(
            a,
            b,
        ).side == Side::Second,
        preferred_of(a, b).fallback <==> a.mtime_ns == b.mtime_ns && a.modified_by
            == b.modified_by,
{
    Ordered::irreflexive(a.modified_by);
    if a.modified_by.before(b.modified_by) && b.modified_by.before(a.modified_by) {
        Ordered::transitive(a.modified_by, b.modified_by, a.modified_by);
    }
}

/// A conflict is resolved to the winner's fields, under a version that has the larger counter of
/// each node, whichever side won.
pub proof fn law_merge_takes_the_winner(a: EntryView, b: EntryView, n: NodeId)
    ensures
        ({
            let r = resolved(a, b);
            let w = if r.winner == Side::First {
                a
            } else {
                b
            };
            &&& r.winner == winner_of(a, b).side
            &&& r.fallback == winner_of(a, b).fallback
            &&& r.merged == (EntryView { version: r.merged.version, ..w })
            &&& counter_of(r.merged.version, n) == if counter_of(a.version, n) >= counter_of(
                b.version,
                n,
            ) {
                counter_of(a.version, n)
            } else {
                counter_of(b.version, n)
            }
        }),
{
}

/// Whether an incoming version is newer than the record at its path.
pub open spec fn newer(s: IndexView, e: EntryView) -> bool {
    !s.records.contains_key(e.path) || (holds_all(
        e.version,
        s.records[e.path].entry.version,
    ) && !holds_all(s.records[e.path].entry.version, e.version))
}

/// Whether an incoming version is nothing new: the record holds all of it.
pub open spec fn known(s: IndexView, e: EntryView) -> bool {
    s.records.contains_key(e.path) && holds_all(s.records[e.path].entry.version, e.version)
}

/// What an incoming entry comes to. What the record holds already is passed over. What is newer is
/// applied as it is: by setting metadata where a file is the same but for its time, in the index
/// alone where something else is, without fetching where there is no content, else by fetching.
pub proof fn law_newer_is_applied(s: IndexView, e: EntryView)
    ensures
        ({
            let c = classified(s, e);
            &&& known(s, e) ==> c.item is None && !c.fallback
            &&& newer(s, e) ==> {
                let alike = s.records.contains_key(e.path) && looks_alike(
                    s.records[e.path].entry,
                    e,
                );
                &&& c.item is Some
                &&& !c.fallback
                &&& (c.item->0).entry == e
                &&& (c.item->0).conflict is None
                &&& (c.item->0).mode == if alike && e.kind == Kind::File && !e.deleted {
                    ApplyMode::MetadataOnly
                } else if alike {
                    ApplyMode::IndexOnly
                } else if e.deleted || e.kind == Kind::Dir {
                    ApplyMode::Direct
                } else {
                    ApplyMode::Fetch
                }
            }
        }),
{
    if s.records.contains_key(e.path) {
        let v = s.records[e.path].entry.version;
        assert(crate::version::covers(e.version, v) <==> holds_all(e.version, v));
        assert(crate::version::covers(v, e.version) <==> holds_all(v, e.version));
    }
}

/// What a concurrent version comes to: the merge. If both show the same, nothing but the time of a
/// file may have to be set. If the local content wins, nothing changes on disk. If the other wins,
/// it is put in place, and a local entry that is there is kept as its conflict copy, unless
/// something stands under that name.
pub proof fn law_concurrent_is_merged(s: IndexView, e: EntryView)
    requires
        !known(s, e),
        !newer(s, e),
    ensures
        ({
            let local = s.records[e.path].entry;
            let c = classified(s, e);
            let item = c.item->0;
            let theirs = winner_of(e, local).side == Side::First;
            &&& c.item is Some
            &&& item.entry == (EntryView {
                version: join(e.version, local.version),
                ..if theirs {
                    e
                } else {
                    local
                }
            })
            &&& looks_alike(local, e) ==> {
                &&& !c.fallback
                &&& item.conflict is None
                &&& item.mode == if item.entry.kind == Kind::File && !item.entry.deleted
                    && item.entry.mtime_ns != local.mtime_ns {
                    ApplyMode::MetadataOnly
                } else {
                    ApplyMode::IndexOnly
                }
            }
            &&& !looks_alike(local, e) ==> {
                &&& c.fallback == winner_of(e, local).fallback
                &&& !theirs ==> item.mode == ApplyMode::IndexOnly && item.conflict is None
                &&& theirs ==> item.mode == if e.deleted || e.kind == Kind::Dir {
                    ApplyMode::Direct
                } else {
                    ApplyMode::Fetch
                }
                &&& theirs ==> item.conflict == if !local.deleted && !stands(
                    s,
                    copy_path(local),
                ) {
                    Some(ConflictCopyView { path: copy_path(local), loser: local })
                } else {
                    None
                }
            }
        }),
{
    let v = s.records[e.path].entry.version;
    assert(crate::version::covers(e.version, v) <==> holds_all(e.version, v));
    assert(crate::version::covers(v, e.version) <==> holds_all(v, e.version));
    crate::version::law_merge_commutative(e.version, v);
}

// ---- a whole batch ----------------------------------------------------------

/// Of a path that a batch names more than once the last entry counts.
pub proof fn law_last_entry_counts(entries: Seq<EntryView>, p: Seq<u8>)
    ensures
        last_by_path(entries).contains_key(p) <==> exists|i: int|
            0 <= i < entries.len() && (#[trigger] entries[i]).path == p,
        last_by_path(entries).contains_key(p) ==> exists|i: int|
            0 <= i < entries.len() && (#[trigger] entries[i]).path == p && last_by_path(
                entries,
            )[p] == entries[i] && forall|j: int|
                i < j < entries.len() ==> (#[trigger] entries[j]).path != p,
    decreases entries.len(),
{
    if entries.len() > 0 {
        let t = entries.drop_last();
        let z = entries.len() - 1;
        law_last_entry_counts(t, p);
        assert(entries[z] == entries.last());
        if entries.last().path != p {
            if last_by_path(t).contains_key(p) {
                let i = choose|i: int|
                    0 <= i < t.len() && (#[trigger] t[i]).path == p && last_by_path(t)[p] == t[i]
                        && forall|j: int| i < j < t.len() ==> (#[trigger] t[j]).path != p;
                assert(entries[i] == t[i]);
                assert forall|j: int| i < j < entries.len() implies (
                #[trigger] entries[j]).path != p by {
                    if j < t.len() {
                        assert(t[j] == entries[j]);
                    }
                }
            } else if exists|i: int|
                0 <= i < entries.len() && (#[trigger] entries[i]).path == p {
                let i = choose|i: int| 0 <= i < entries.len() && (#[trigger] entries[i]).path == p;
                assert(t[i].path == p);
            }
        }
    }
}

proof fn lemma_items_among(s: IndexView, m: Map<Seq<u8>, EntryView>, ks: Seq<Seq<u8>>, x: ItemView)
    ensures
        items_among(s, m, ks).contains(x) <==> exists|i: int|
            0 <= i < ks.len() && classified(s, m[#[trigger] ks[i]]).item == Some(x),
        items_among(s, m, ks).len() == ks.filter(
            |p: Seq<u8>| classified(s, m[p]).item is Some,
        ).len(),
    decreases ks.len(),
{
    reveal(Seq::filter);
    if ks.len() > 0 {
        let t = ks.drop_last();
        let z = ks.len() - 1;
        lemma_items_among(s, m, t, x);
        let a = items_among(s, m, t);
        let b = items_among(s, m, ks);
        assert(ks[z] == ks.last());
        if b.contains(x) {
            let i = choose|i: int| 0 <= i < b.len() && b[i] == x;
            if i < a.len() {
                assert(a[i] == x);
                let j = choose|j: int|
                    0 <= j < t.len() && classified(s, m[#[trigger] t[j]]).item == Some(x);
                assert(ks[j] == t[j]);
            }
        }
        if exists|i: int| 0 <= i < ks.len() && classified(s, m[#[trigger] ks[i]]).item == Some(x) {
            let i = choose|i: int|
                0 <= i < ks.len() && classified(s, m[#[trigger] ks[i]]).item == Some(x);
            if i < t.len() {
                assert(t[i] == ks[i]);
                assert(a.contains(x));
                let j = choose|j: int| 0 <= j < a.len() && a[j] == x;
                assert(b[j] == x);
            } else {
                assert(b[b.len() - 1] == x);
            }
        }
    }
}

/// What a batch would change is what the last entry of each of its paths comes to, and nothing
/// else; what is passed over and what is named again is counted.
pub proof fn law_apply_set_exactly(s: IndexView, batch: BatchView, x: ItemView)
    requires
        s.well_formed(),
    ensures
        ({
            let set = apply_set_of(s, batch);
            let m = last_by_path(batch.entries);
            &&& set.folder == batch.folder
            &&& set.batch == batch.id
            &&& set.source == batch.source
            &&& set.seq_high == batch.seq_high
            &&& set.items.contains(x) <==> exists|p: Seq<u8>| #[trigger]
                m.contains_key(p) && classified(s, m[p]).item == Some(x)
            &&& m.dom().finite()
            &&& set.items.len() + set.ignored == m.dom().len()
            &&& m.dom().len() + set.duplicates == batch.entries.len()
        }),
{
    let m = last_by_path(batch.entries);
    lemma_last_finite(batch.entries);
    lemma_order_facts(m.dom());
    let ks = in_order(m.dom());
    lemma_items_among(s, m, ks, x);
    ks.lemma_filter_len(|p: Seq<u8>| classified(s, m[p]).item is Some);
    if exists|i: int| 0 <= i < ks.len() && classified(s, m[#[trigger] ks[i]]).item == Some(x) {
        let i = choose|i: int|
            0 <= i < ks.len() && classified(s, m[#[trigger] ks[i]]).item == Some(x);
        assert(m.dom().contains(ks[i]));
        assert(m.contains_key(ks[i]));
    }
    if exists|p: Seq<u8>| #[trigger] m.contains_key(p) && classified(s, m[p]).item == Some(x) {
        let p = choose|p: Seq<u8>| #[trigger]
            m.contains_key(p) && classified(s, m[p]).item == Some(x);
        assert(m.dom().contains(p));
        let i = choose|i: int| 0 <= i < ks.len() && ks[i] == p;
        assert(classified(s, m[ks[i]]).item == Some(x));
    }
}

/// A batch names finitely many paths.
pub proof fn lemma_last_finite(entries: Seq<EntryView>)
    ensures
        last_by_path(entries).dom().finite(),
        last_by_path(entries).dom().len() <= entries.len(),
    decreases entries.len(),
{
    if entries.len() > 0 {
        lemma_last_finite(entries.drop_last());
    }
}

// ---- the name of a conflict copy --------------------------------------------

/// The extension of a name starts at its last dot, unless that is its first character; a
/// directory's name has none.
pub proof fn law_extension(name: Seq<u8>, kind: Kind)
    ensures
        ({
            let n = stem_len(name, kind);
            &&& 0 <= n <= name.len()
            &&& kind == Kind::Dir ==> n == name.len()
            &&& n < name.len() ==> n > 0 && name[n] == 46 && forall|i: int|
                n < i < name.len() ==> name[i] != 46
            &&& kind != Kind::Dir && n == name.len() ==> forall|i: int|
                0 < i < name.len() ==> name[i] != 46
        }),
{
    lemma_dot(name);
}

proof fn lemma_dot(s: Seq<u8>)
    ensures
        -1 <= last_dot(s) < s.len(),
        last_dot(s) >= 0 ==> s[last_dot(s)] == 46,
        forall|i: int| last_dot(s) < i < s.len() ==> s[i] != 46,
    decreases s.len(),
{
    if s.len() > 0 && s.last() != 46 {
        let t = s.drop_last();
        lemma_dot(t);
        assert forall|i: int| last_dot(s) < i < s.len() implies s[i] != 46 by {
            if i < t.len() {
                assert(t[i] != 46);
            }
        }
    }
}

/// A conflict copy stands beside the file, and a name that fits keeps its stem and its extension
/// whole: between them it says when the losing content was last changed and on which host, or by
/// which node where the host has no name.
pub proof fn law_copy_name_tells(l: EntryView)
    ensures
        ({
            let name = name_of(l.path);
            let n = stem_len(name, l.kind);
            let mark = suffix_of(l);
            &&& name.len() + mark.len() <= 255 ==> copy_name(l) == name.take(n) + mark
                + name.skip(n)
            &&& l.author_host.len() > 0 ==> who(l) == l.author_host
            &&& l.author_host.len() == 0 ==> who(l) == encode_utf8(
                hex_text(l.modified_by.bytes().take(4)),
            )
            &&& mark == encode_utf8(".conflict-"@ + utc_text(l.mtime_ns as int) + "-"@) + who(l)
            &&& l.author_host.len() > 0 ==> mark.len() >= l.author_host.len() && mark.skip(
                mark.len() - l.author_host.len(),
            ) == l.author_host
        }),
{
    let name = name_of(l.path);
    law_extension(name, l.kind);
    let n = stem_len(name, l.kind);
    assert(name.take(n).len() + name.skip(n).len() == name.len());
    let mark = suffix_of(l);
    if l.author_host.len() == 0 {
        assert(l.author_host =~= Seq::<u8>::empty());
    }
    if l.author_host.len() > 0 {
        assert(mark.skip(mark.len() - l.author_host.len()) =~= l.author_host);
    }
}

proof fn lemma_cut(s: Seq<u8>, n: nat)
    ensures
        cut_len(s, n) <= n,
        cut_len(s, n) == 0 || is_char_boundary(s, cut_len(s, n) as int),
        forall|k: int| cut_len(s, n) < k <= n ==> !is_char_boundary(s, k),
    decreases n,
{
    if n > 0 && !is_char_boundary(s, n as int) {
        lemma_cut(s, (n - 1) as nat);
    }
}

/// Whether `a` is as much of some bytes as ends between two characters within a limit.
pub open spec fn most_of(a: int, s: Seq<u8>, limit: int) -> bool {
    &&& 0 <= a <= s.len()
    &&& a <= limit || a == 0
    &&& a == 0 || is_char_boundary(s, a)
    &&& forall|k: int| a < k <= limit && k <= s.len() ==> !is_char_boundary(s, k)
}

/// A name that does not fit keeps what the copy's name says whole; as much of the stem stays as
/// fits beside the extension, and as much of the extension as then fits.
pub proof fn law_long_names_are_cut(stem: Seq<u8>, mark: Seq<u8>, ext: Seq<u8>, max: int)
    requires
        mark.len() <= max,
        stem.len() + mark.len() + ext.len() > max,
    ensures
        exists|a: int, b: int|
            #![trigger stem.take(a), ext.take(b)]
            most_of(a, stem, max - mark.len() - ext.len()) && most_of(b, ext, max - mark.len() - a)
                && fitted(stem, mark, ext, max) == stem.take(a) + mark + ext.take(b),
{
    let budget = max - mark.len();
    let x = budget - ext.len();
    let m = if x < 0 {
        0
    } else if x < stem.len() {
        x
    } else {
        stem.len() as int
    };
    lemma_cut(stem, m as nat);
    let a = cut_len(stem, m as nat) as int;
    assert(cut_to(stem, x) == stem.take(a));
    let y = budget - a;
    let n = if y < 0 {
        0
    } else if y < ext.len() {
        y
    } else {
        ext.len() as int
    };
    lemma_cut(ext, n as nat);
    let b = cut_len(ext, n as nat) as int;
    assert(cut_to(ext, y) == ext.take(b));
    assert(most_of(a, stem, x));
    assert(most_of(b, ext, y));
}

} // verus!
