//! Conflicts: the winner rule, the merged version, and the name of a conflict copy.
//!
//! Two versions of one path conflict when they are concurrent and differ in content. Everything
//! here depends on the two entries alone, so every machine resolves the same pair in the same
//! way and arrives at the same name.

use crate::entry::{ContentHash, Entry, EntryView, Kind};
use crate::id::{valid_host, HostName, NodeId};
use crate::order::Ordered;
use crate::ordmap::{Key, Value};
use crate::path::{
    component_fault, good_component, joined, law_join_valid, law_parent_valid, lemma_ascii_boundary,
    lemma_encode_concat, lemma_name_good, lemma_single_valid, name_of, parent_of, reserved,
    valid_path, MAX_COMPONENT_LEN, RelPath,
};
use crate::text::{fixed_text, hex_text};
use crate::time::{civil, format_utc_compact, utc_text};
use crate::version::{
    covers, join, law_merge_associative, law_merge_commutative, law_merge_least_upper_bound,
    law_merge_of_concurrent_dominates, relation, Relation,
};
use vstd::prelude::*;
use vstd::string::*;
use vstd::utf8::{encode_utf8, is_char_boundary};

verus! {

/// Which of two entries a rule picked.
#[derive(Clone, Copy, Debug, PartialEq, Eq, Hash, Structural)]
pub enum Side {
    /// The first argument.
    First,
    /// The second argument.
    Second,
}

impl Side {
    /// The other side.
    pub open spec fn opposite(self) -> Side {
        match self {
            Side::First => Side::Second,
            Side::Second => Side::First,
        }
    }

    /// The other side.
    pub fn other(self) -> (r: Side)
        ensures
            r == self.opposite(),
    {
        match self {
            Side::First => Side::Second,
            Side::Second => Side::First,
        }
    }

    /// The side seen from swapped arguments.
    pub fn flip(self) -> (r: Side)
        ensures
            r == self.opposite(),
    {
        self.other()
    }
}

/// The outcome of one comparison under the winner rule.
#[derive(Clone, Copy, Debug, PartialEq, Eq, Hash, Structural)]
pub struct Winner {
    pub side: Side,
    /// True if only the last rule separated the two.
    pub fallback: bool,
}

/// What decides between two entries first: the later stamp, a live entry over a tombstone, a
/// change of content over a touch, the later modification time, the larger author.
pub open spec fn claim(e: EntryView) -> (i64, (bool, (bool, (i64, NodeId)))) {
    (e.stamp, (!e.deleted, (!e.metadata_only(), (e.mtime_ns, e.modified_by))))
}

/// The place of a kind in the last rule.
pub open spec fn kind_rank(k: Kind) -> u8 {
    match k {
        Kind::File => 0,
        Kind::Dir => 1,
        Kind::Symlink => 2,
    }
}

/// What decides in the end: the hash, the kind, the executable bit, the size, the hash that was
/// replaced, the author's host, the stamp.
pub open spec fn residue(e: EntryView) -> (
    ContentHash,
    (u8, (bool, (u64, (ContentHash, (Seq<u8>, i64))))),
) {
    (e.hash, (kind_rank(e.kind), (e.executable, (e.size, (e.prev_hash, (e.author_host, e.stamp))))))
}

/// What decides which side's fields to keep where the content is the same.
pub open spec fn freshness(e: EntryView) -> (i64, NodeId) {
    (e.mtime_ns, e.modified_by)
}

/// The side with the larger claim, then with the larger residue.
pub open spec fn winner_of(a: EntryView, b: EntryView) -> Winner {
    Winner {
        side: if (claim(a), residue(a)).before((claim(b), residue(b))) {
            Side::Second
        } else {
            Side::First
        },
        fallback: claim(a) == claim(b),
    }
}

/// The side with the fresher fields, then with the larger residue.
pub open spec fn preferred_of(a: EntryView, b: EntryView) -> Winner {
    Winner {
        side: if (freshness(a), residue(a)).before((freshness(b), residue(b))) {
            Side::Second
        } else {
            Side::First
        },
        fallback: freshness(a) == freshness(b),
    }
}

/// The fields of `w` under the larger counters of both.
pub open spec fn merged_of(w: EntryView, l: EntryView) -> EntryView {
    EntryView { version: join(w.version, l.version), ..w }
}

/// What a conflict resolves to.
pub struct ResolutionView {
    pub winner: Side,
    pub merged: EntryView,
    pub fallback: bool,
}

/// How a conflict between two entries resolves.
pub open spec fn resolved(a: EntryView, b: EntryView) -> ResolutionView {
    let w = winner_of(a, b);
    ResolutionView {
        winner: w.side,
        merged: if w.side == Side::First {
            merged_of(a, b)
        } else {
            merged_of(b, a)
        },
        fallback: w.fallback,
    }
}

// ---- laws -------------------------------------------------------------------

/// Entries of one path that agree in claim and residue differ in nothing but their versions.
proof fn lemma_full_tie(a: EntryView, b: EntryView)
    requires
        a.path == b.path,
        claim(a) == claim(b),
        residue(a) == residue(b),
    ensures
        a == (EntryView { version: a.version, ..b }),
{
    assert(a.kind == b.kind);
    assert(a == (EntryView { version: a.version, ..b }));
}

/// The rule names the same entry from either side, unless the two agree in every field that it
/// looks at.
pub proof fn law_winner_symmetric(a: EntryView, b: EntryView)
    ensures
        winner_of(a, b).fallback == winner_of(b, a).fallback,
        (claim(a), residue(a)) != (claim(b), residue(b)) ==> winner_of(a, b).side == winner_of(
            b,
            a,
        ).side.opposite(),
        (claim(a), residue(a)) == (claim(b), residue(b)) ==> winner_of(a, b).side == Side::First
            && winner_of(b, a).side == Side::First,
{
    let x = (claim(a), residue(a));
    let y = (claim(b), residue(b));
    Ordered::total(x, y);
    Ordered::irreflexive(x);
    if x.before(y) && y.before(x) {
        Ordered::transitive(x, y, x);
    }
}

/// Each step of the rule in turn: the stamp, then a live entry, then a change of content, then
/// the modification time, then the author.
pub proof fn law_winner_in_order(a: EntryView, b: EntryView)
    ensures
        a.stamp > b.stamp ==> winner_of(a, b).side == Side::First,
        a.stamp == b.stamp && !a.deleted && b.deleted ==> winner_of(a, b).side == Side::First,
        a.stamp == b.stamp && a.deleted == b.deleted && !a.metadata_only() && b.metadata_only()
            ==> winner_of(a, b).side == Side::First,
        a.stamp == b.stamp && a.deleted == b.deleted && a.metadata_only() == b.metadata_only()
            && a.mtime_ns > b.mtime_ns ==> winner_of(a, b).side == Side::First,
        a.stamp == b.stamp && a.deleted == b.deleted && a.metadata_only() == b.metadata_only()
            && a.mtime_ns == b.mtime_ns && b.modified_by.before(a.modified_by) ==> winner_of(
            a,
            b,
        ).side == Side::First,
        winner_of(a, b).fallback ==> a.mtime_ns == b.mtime_ns && a.modified_by == b.modified_by,
{
    Ordered::irreflexive(a.modified_by);
    if a.modified_by.before(b.modified_by) && b.modified_by.before(a.modified_by) {
        Ordered::transitive(a.modified_by, b.modified_by, a.modified_by);
    }
}

/// Every machine that resolves a pair of versions of one path, in whichever order, arrives at the
/// same entry; its vector is the merge of both.
pub proof fn law_resolution_symmetric(a: EntryView, b: EntryView)
    requires
        a.path == b.path,
    ensures
        resolved(a, b).merged == resolved(b, a).merged,
        resolved(a, b).fallback == resolved(b, a).fallback,
        resolved(a, b).merged.version == join(a.version, b.version),
        covers(resolved(a, b).merged.version, a.version),
        covers(resolved(a, b).merged.version, b.version),
        relation(a.version, b.version) == Relation::Concurrent ==> relation(
            resolved(a, b).merged.version,
            a.version,
        ) == Relation::Dominates && relation(resolved(a, b).merged.version, b.version)
            == Relation::Dominates,
{
    law_winner_symmetric(a, b);
    law_merge_commutative(a.version, b.version);
    law_merge_least_upper_bound(a.version, b.version, a.version);
    if relation(a.version, b.version) == Relation::Concurrent {
        law_merge_of_concurrent_dominates(a.version, b.version);
    }
    if claim(a) == claim(b) && residue(a) == residue(b) {
        lemma_full_tie(a, b);
        assert(merged_of(a, b) == merged_of(b, a));
    }
}

/// Keeping the preferred side's fields gives the same entry from either side.
pub proof fn law_preference_symmetric(a: EntryView, b: EntryView)
    requires
        a.path == b.path,
        a.same_content(b),
    ensures
        (if preferred_of(a, b).side == Side::First {
            merged_of(a, b)
        } else {
            merged_of(b, a)
        }) == (if preferred_of(b, a).side == Side::First {
            merged_of(b, a)
        } else {
            merged_of(a, b)
        }),
{
    let x = (freshness(a), residue(a));
    let y = (freshness(b), residue(b));
    Ordered::total(x, y);
    Ordered::irreflexive(x);
    if x.before(y) && y.before(x) {
        Ordered::transitive(x, y, x);
    }
    law_merge_commutative(a.version, b.version);
    if x == y {
        assert(a.kind == b.kind);
        assert(merged_of(a, b) == merged_of(b, a));
    }
}

/// Resolving three versions of one path pairwise gives the same entry in whichever grouping.
pub proof fn law_resolution_associative(a: EntryView, b: EntryView, c: EntryView)
    requires
        a.path == b.path,
        b.path == c.path,
    ensures
        resolved(resolved(a, b).merged, c).merged == resolved(a, resolved(b, c).merged).merged,
{
    let x = (claim(a), residue(a));
    let y = (claim(b), residue(b));
    let z = (claim(c), residue(c));
    law_merge_associative(a.version, b.version, c.version);
    law_merge_commutative(a.version, b.version);
    law_merge_commutative(b.version, c.version);
    law_merge_commutative(join(a.version, b.version), c.version);
    law_merge_commutative(a.version, join(b.version, c.version));
    Ordered::total(x, y);
    Ordered::total(y, z);
    Ordered::total(x, z);
    Ordered::irreflexive(x);
    Ordered::irreflexive(y);
    Ordered::irreflexive(z);
    if x.before(y) && y.before(x) {
        Ordered::transitive(x, y, x);
    }
    if y.before(z) && z.before(y) {
        Ordered::transitive(y, z, y);
    }
    if x.before(z) && z.before(x) {
        Ordered::transitive(x, z, x);
    }
    if x.before(y) && y.before(z) {
        Ordered::transitive(x, y, z);
    }
    if y.before(x) && z.before(y) {
        Ordered::transitive(z, y, x);
    }
    if x == y {
        lemma_full_tie(a, b);
    }
    if y == z {
        lemma_full_tie(b, c);
    }
    if x == z {
        lemma_full_tie(a, c);
    }
    let ab = resolved(a, b).merged;
    let bc = resolved(b, c).merged;
    assert(claim(ab) == claim(if winner_of(a, b).side == Side::First { a } else { b }));
    assert(residue(ab) == residue(if winner_of(a, b).side == Side::First { a } else { b }));
    assert(claim(bc) == claim(if winner_of(b, c).side == Side::First { b } else { c }));
    assert(residue(bc) == residue(if winner_of(b, c).side == Side::First { b } else { c }));
}

// ---- the rule ---------------------------------------------------------------

fn kind_number(k: Kind) -> (r: u8)
    ensures
        r == kind_rank(k),
{
    match k {
        Kind::File => 0,
        Kind::Dir => 1,
        Kind::Symlink => 2,
    }
}

/// The claim of an entry as a key.
fn claim_key(e: &Entry) -> (r: (i64, (bool, (bool, (i64, NodeId)))))
    ensures
        r.key() == claim(e@),
        r == claim(e@),
{
    (e.stamp, (!e.deleted, (!e.is_metadata_only(), (e.mtime_ns, e.modified_by))))
}

/// The residue of an entry as a key.
fn residue_key(e: &Entry) -> (r: (
    ContentHash,
    (u8, (bool, (u64, (ContentHash, (HostName, i64))))),
))
    ensures
        r.key() == residue(e@),
{
    (
        e.hash,
        (
            kind_number(e.kind),
            (e.executable, (e.size, (e.prev_hash, (e.author_host.dup(), e.stamp)))),
        ),
    )
}

/// Which of two versions of a path wins a conflict: the later stamp, then a live entry over a
/// tombstone, then a change of content over a touch, then the later modification time, then the
/// larger author. What is left is settled by every remaining field in a fixed order, so that two
/// entries that differ at all are ordered the same way from either side; two that do not give
/// `First`.
pub fn winner(a: &Entry, b: &Entry) -> (r: Winner)
    ensures
        r == winner_of(a@, b@),
{
    let x = claim_key(a);
    let y = claim_key(b);
    proof {
        Ordered::total(claim(a@), claim(b@));
        Ordered::irreflexive(claim(a@));
        if claim(a@).before(claim(b@)) && claim(b@).before(claim(a@)) {
            Ordered::transitive(claim(a@), claim(b@), claim(a@));
        }
    }
    if y.less(&x) {
        return Winner { side: Side::First, fallback: false };
    }
    if x.less(&y) {
        return Winner { side: Side::Second, fallback: false };
    }
    total_fallback(a, b)
}

/// The last rule: every remaining field in a fixed order.
fn total_fallback(a: &Entry, b: &Entry) -> (r: Winner)
    ensures
        r.fallback,
        r.side == if residue(a@).before(residue(b@)) {
            Side::Second
        } else {
            Side::First
        },
{
    let side = if residue_key(a).less(&residue_key(b)) {
        Side::Second
    } else {
        Side::First
    };
    Winner { side, fallback: true }
}

/// Which side's fields a merge of identical content keeps: the later modification time, then the
/// larger author, then the fixed order of the remaining fields.
pub fn prefer_fields(a: &Entry, b: &Entry) -> (r: Winner)
    ensures
        r == preferred_of(a@, b@),
{
    let x = (a.mtime_ns, a.modified_by);
    let y = (b.mtime_ns, b.modified_by);
    proof {
        let p = freshness(a@);
        let q = freshness(b@);
        Ordered::total(p, q);
        Ordered::irreflexive(p);
        if p.before(q) && q.before(p) {
            Ordered::transitive(p, q, p);
        }
        assert(x.key() == p);
        assert(y.key() == q);
    }
    if y.less(&x) {
        return Winner { side: Side::First, fallback: false };
    }
    if x.less(&y) {
        return Winner { side: Side::Second, fallback: false };
    }
    total_fallback(a, b)
}

/// The fields of `w` under the larger counters of both vectors, without an increment.
pub fn merged(w: &Entry, l: &Entry) -> (r: Entry)
    ensures
        r@ == merged_of(w@, l@),
{
    let mut out = w.dup();
    out.version = w.version.merge(&l.version);
    out
}

/// What the losing local file becomes when the winner's content is put in its place.
#[derive(Clone, Debug, PartialEq, Eq)]
pub struct ConflictCopy {
    /// Where the host moves the existing file.
    pub path: RelPath,
    /// The record the file had: its fields become the copy's.
    pub loser: Entry,
}

/// What a conflict copy stands for.
pub struct ConflictCopyView {
    pub path: Seq<u8>,
    pub loser: EntryView,
}

impl View for ConflictCopy {
    type V = ConflictCopyView;

    open spec fn view(&self) -> ConflictCopyView {
        ConflictCopyView { path: self.path@, loser: self.loser@ }
    }
}

impl DeepView for ConflictCopy {
    type V = ConflictCopyView;

    open spec fn deep_view(&self) -> ConflictCopyView {
        self.view()
    }
}

impl Value for ConflictCopy {
    fn dup(&self) -> (r: ConflictCopy) {
        ConflictCopy { path: self.path.dup(), loser: self.loser.dup() }
    }

    fn same(&self, other: &ConflictCopy) -> (r: bool) {
        self.path.same(&other.path) && self.loser.same(&other.loser)
    }
}

/// A resolved conflict between an incoming entry and the local record.
#[derive(Clone, Debug, PartialEq, Eq)]
pub struct Resolution {
    /// Which input won.
    pub winner: Side,
    /// The entry that both become.
    pub merged: Entry,
    /// The last rule decided it.
    pub fallback: bool,
}

impl View for Resolution {
    type V = ResolutionView;

    open spec fn view(&self) -> ResolutionView {
        ResolutionView { winner: self.winner, merged: self.merged@, fallback: self.fallback }
    }
}

/// Resolves a concurrent pair with different content.
pub fn resolve(incoming: &Entry, local: &Entry) -> (r: Resolution)
    ensures
        r@ == resolved(incoming@, local@),
{
    let w = winner(incoming, local);
    let m = match w.side {
        Side::First => merged(incoming, local),
        Side::Second => merged(local, incoming),
    };
    Resolution { winner: w.side, merged: m, fallback: w.fallback }
}

// ---- names ------------------------------------------------------------------

/// The offset of the last dot, or -1 if there is none.
pub open spec fn last_dot(s: Seq<u8>) -> int
    decreases s.len(),
{
    if s.len() == 0 {
        -1
    } else if s.last() == 46 {
        s.len() - 1
    } else {
        last_dot(s.drop_last())
    }
}

/// Where the extension of a name starts: at the last dot that is not its first character. A
/// directory's name has none.
pub open spec fn stem_len(name: Seq<u8>, kind: Kind) -> int {
    if kind == Kind::Dir || last_dot(name) <= 0 {
        name.len() as int
    } else {
        last_dot(name)
    }
}

/// The longest length up to `n` that ends between two characters.
pub open spec fn cut_len(s: Seq<u8>, n: nat) -> nat
    decreases n,
{
    if n == 0 || is_char_boundary(s, n as int) {
        n
    } else {
        cut_len(s, (n - 1) as nat)
    }
}

/// The longest prefix within `max` bytes that ends between two characters.
pub open spec fn cut_to(s: Seq<u8>, max: int) -> Seq<u8> {
    let most = if max < 0 {
        0
    } else if max < s.len() {
        max
    } else {
        s.len() as int
    };
    s.take(cut_len(s, most as nat) as int)
}

/// Stem, suffix and extension within `max` bytes: the stem gives way first, then the extension
/// from its end. The suffix is always kept whole.
pub open spec fn fitted(stem: Seq<u8>, suffix: Seq<u8>, ext: Seq<u8>, max: int) -> Seq<u8> {
    let budget = if suffix.len() <= max {
        max - suffix.len()
    } else {
        0
    };
    if stem.len() + ext.len() <= budget {
        stem + suffix + ext
    } else {
        let s = cut_to(stem, budget - ext.len());
        let e = cut_to(ext, budget - s.len());
        s + suffix + e
    }
}

/// Who a conflict copy is named after: the author's host, or the short form of the author.
pub open spec fn who(l: EntryView) -> Seq<u8> {
    if l.author_host == Seq::<u8>::empty() {
        encode_utf8(hex_text(l.modified_by.bytes().take(4)))
    } else {
        l.author_host
    }
}

/// What a conflict copy's name has between the stem and the extension.
pub open spec fn suffix_of(l: EntryView) -> Seq<u8> {
    encode_utf8(".conflict-"@ + utc_text(l.mtime_ns as int) + "-"@) + who(l)
}

/// The name of the conflict copy of a losing entry.
pub open spec fn copy_name(l: EntryView) -> Seq<u8> {
    let name = name_of(l.path);
    let n = stem_len(name, l.kind);
    fitted(name.take(n), suffix_of(l), name.skip(n), MAX_COMPONENT_LEN as int)
}

/// The path of the conflict copy of a losing entry: beside it.
pub open spec fn copy_path(l: EntryView) -> Seq<u8> {
    match parent_of(l.path) {
        Some(p) => joined(p, copy_name(l)),
        None => copy_name(l),
    }
}

proof fn lemma_last_dot(s: Seq<u8>)
    ensures
        -1 <= last_dot(s) < s.len(),
        last_dot(s) >= 0 ==> s[last_dot(s)] == 46,
        forall|i: int| last_dot(s) < i < s.len() ==> s[i] != 46,
    decreases s.len(),
{
    if s.len() > 0 && s.last() != 46 {
        let t = s.drop_last();
        lemma_last_dot(t);
        assert forall|i: int| last_dot(s) < i < s.len() implies s[i] != 46 by {
            if i < t.len() {
                assert(t[i] != 46);
            }
        }
    }
}

proof fn lemma_cut_len(s: Seq<u8>, n: nat)
    ensures
        cut_len(s, n) <= n,
    decreases n,
{
    if n > 0 && !is_char_boundary(s, n as int) {
        lemma_cut_len(s, (n - 1) as nat);
    }
}

/// Whether a text is made of digits, small letters, dots and hyphens.
spec fn plain(s: Seq<char>) -> bool {
    forall|i: int| 0 <= i < s.len() ==> '-' <= #[trigger] s[i] <= 'z' && s[i] != '/'
}

proof fn lemma_plain_bytes(s: Seq<char>)
    requires
        plain(s),
    ensures
        encode_utf8(s).len() == s.len(),
        !encode_utf8(s).contains(0u8),
        !encode_utf8(s).contains(47u8),
{
    assert(vstd::utf8::is_ascii_chars(s));
    vstd::utf8::is_ascii_chars_encode_utf8(s);
    let b = encode_utf8(s);
    assert forall|i: int| 0 <= i < b.len() implies #[trigger] b[i] != 0u8 && b[i] != 47u8 by {
        assert(b[i] == s[i] as u8);
        assert('-' <= s[i] <= 'z');
    }
}

proof fn lemma_fixed_plain(n: nat, w: nat)
    ensures
        fixed_text(n, w).len() == w,
        plain(fixed_text(n, w)),
    decreases w,
{
    if w > 0 {
        lemma_fixed_plain(n / 10, (w - 1) as nat);
    }
}

proof fn lemma_hex_plain(b: Seq<u8>)
    ensures
        hex_text(b).len() == 2 * b.len(),
        plain(hex_text(b)),
    decreases b.len(),
{
    if b.len() > 0 {
        lemma_hex_plain(b.drop_last());
    }
}

proof fn lemma_stamp_plain(nanos: int)
    ensures
        (".conflict-"@ + utc_text(nanos) + "-"@).len() == 26,
        plain(".conflict-"@ + utc_text(nanos) + "-"@),
{
    reveal_strlit(".conflict-");
    reveal_strlit("-");
    let secs = nanos / crate::time::NANOS_PER_SECOND as int;
    let c = civil(secs / 86_400);
    let second = (secs % 86_400) as nat;
    lemma_fixed_plain(c.0 as nat, 4);
    lemma_fixed_plain(c.1 as nat, 2);
    lemma_fixed_plain(c.2 as nat, 2);
    lemma_fixed_plain(second / 3600, 2);
    lemma_fixed_plain((second % 3600) / 60, 2);
    lemma_fixed_plain(second % 60, 2);
}

proof fn lemma_suffix(l: EntryView)
    requires
        valid_host(l.author_host),
    ensures
        27 <= suffix_of(l).len() <= 89,
        !suffix_of(l).contains(0u8),
        !suffix_of(l).contains(47u8),
{
    lemma_stamp_plain(l.mtime_ns as int);
    lemma_plain_bytes(".conflict-"@ + utc_text(l.mtime_ns as int) + "-"@);
    let a = encode_utf8(".conflict-"@ + utc_text(l.mtime_ns as int) + "-"@);
    let b = who(l);
    NodeId::law_bytes(l.modified_by, l.modified_by);
    lemma_hex_plain(l.modified_by.bytes().take(4));
    lemma_plain_bytes(hex_text(l.modified_by.bytes().take(4)));
    if l.author_host != Seq::<u8>::empty() {
        assert(l.author_host.len() > 0) by {
            if l.author_host.len() == 0 {
                assert(l.author_host =~= Seq::<u8>::empty());
            }
        }
        assert forall|i: int| 0 <= i < b.len() implies #[trigger] b[i] != 0u8 && b[i] != 47u8 by {
            assert(crate::id::host_byte(l.author_host[i]));
        }
    }
    let s = suffix_of(l);
    assert forall|i: int| 0 <= i < s.len() implies #[trigger] s[i] != 0u8 && s[i] != 47u8 by {
        if i < a.len() {
            assert(a.contains(a[i]));
        } else {
            assert(b.contains(b[i - a.len()]));
        }
    }
}

/// The name of a conflict copy is a good component, at least as long as its suffix.
pub proof fn lemma_copy_name_good(l: EntryView)
    requires
        valid_path(l.path),
        valid_host(l.author_host),
    ensures
        good_component(copy_name(l)),
        27 <= copy_name(l).len() <= MAX_COMPONENT_LEN,
{
    let name = name_of(l.path);
    lemma_name_good(l.path);
    lemma_last_dot(name);
    lemma_suffix(l);
    let n = stem_len(name, l.kind);
    let suffix = suffix_of(l);
    let stem = name.take(n);
    let ext = name.skip(n);
    let budget = MAX_COMPONENT_LEN - suffix.len();
    let (s, e) = if stem.len() + ext.len() <= budget {
        (stem, ext)
    } else {
        let s = cut_to(stem, budget - ext.len());
        (s, cut_to(ext, budget - s.len()))
    };
    if budget - ext.len() >= 0 {
        lemma_cut_len(
            stem,
            (if budget - ext.len() < stem.len() {
                budget - ext.len()
            } else {
                stem.len() as int
            }) as nat,
        );
    } else {
        lemma_cut_len(stem, 0);
    }
    if budget - s.len() >= 0 {
        lemma_cut_len(
            ext,
            (if budget - s.len() < ext.len() {
                budget - s.len()
            } else {
                ext.len() as int
            }) as nat,
        );
    } else {
        lemma_cut_len(ext, 0);
    }
    assert(s.len() + e.len() <= budget);
    let c = copy_name(l);
    assert(c =~= s + suffix + e);
    assert forall|i: int| 0 <= i < c.len() implies #[trigger] c[i] != 0u8 && c[i] != 47u8 by {
        if i < s.len() {
            assert(s[i] == name[i]);
            assert(name.contains(name[i]));
        } else if i < s.len() + suffix.len() {
            assert(suffix.contains(suffix[i - s.len()]));
        } else {
            let j = i - s.len() - suffix.len();
            assert(e[j] == ext[j]);
            assert(ext[j] == name[n + j]);
            assert(name.contains(name[n + j]));
        }
    }
    assert(component_fault(c) is None) by {
        assert(seq![46u8].len() == 1);
        assert(seq![46u8, 46u8].len() == 2);
    }
}

/// The path of a conflict copy is a path beside the loser, with a name of legal length.
pub proof fn law_copy_path_valid(l: EntryView)
    requires
        valid_path(l.path),
        valid_host(l.author_host),
    ensures
        valid_path(copy_path(l)),
        parent_of(copy_path(l)) == parent_of(l.path),
        name_of(copy_path(l)) == copy_name(l),
        copy_name(l).len() <= MAX_COMPONENT_LEN,
{
    lemma_copy_name_good(l);
    let c = copy_name(l);
    assert forall|i: int| 0 <= i < c.len() implies c[i] != 47 by {
        assert(c.contains(c[i]));
    }
    match parent_of(l.path) {
        Some(p) => {
            law_parent_valid(l.path);
            law_join_valid(p, c);
            crate::path::law_join_parent(p, c);
        },
        None => {
            assert(reserved().len() == 8);
            lemma_single_valid(c);
            lemma_name_good(c);
            crate::path::lemma_no_slash(c);
        },
    }
}

/// The offset where a name's extension starts.
fn split_name(name: &str, kind: Kind) -> (n: usize)
    ensures
        n == stem_len(name.spec_bytes(), kind),
        n <= name.spec_bytes().len(),
        n == name.spec_bytes().len() || name.spec_bytes()[n as int] == 46,
{
    let bytes = name.as_bytes();
    proof {
        lemma_last_dot(bytes@);
    }
    if kind == Kind::Dir {
        return bytes.len();
    }
    let mut n: usize = bytes.len();
    while n > 0 && bytes[n - 1] != 46
        invariant
            n <= bytes.len(),
            forall|j: int| n <= j < bytes.len() ==> #[trigger] bytes@[j] != 46,
        decreases n,
    {
        n = n - 1;
    }
    if n > 1 {
        n - 1
    } else {
        bytes.len()
    }
}

/// The longest prefix of `s` within `max` bytes that ends between two characters.
fn cut(s: &str, max: usize) -> (r: &str)
    ensures
        r.spec_bytes() == cut_to(s.spec_bytes(), max as int),
{
    let len: usize = s.as_bytes().len();
    let mut n: usize = if max < len {
        max
    } else {
        len
    };
    let ghost most = n as nat;
    while !s.is_char_boundary(n)
        invariant
            n <= len,
            len == s.spec_bytes().len(),
            cut_len(s.spec_bytes(), most) == cut_len(s.spec_bytes(), n as nat),
        decreases n,
    {
        proof {
            if n == 0 {
                vstd::utf8::encode_utf8_valid_utf8(s@);
                vstd::utf8::is_char_boundary_start_end_of_seq(s.spec_bytes());
            }
        }
        n = n - 1;
    }
    let (head, _) = s.split_at(n);
    assert(head.spec_bytes() =~= s.spec_bytes().take(n as int));
    head
}

/// Stem, suffix and extension within `max` bytes.
fn fit(stem: &str, suffix: &str, ext: &str, max: usize) -> (r: String)
    requires
        stem.spec_bytes().len() + ext.spec_bytes().len() <= usize::MAX,
    ensures
        encode_utf8(r@) == fitted(
            stem.spec_bytes(),
            suffix.spec_bytes(),
            ext.spec_bytes(),
            max as int,
        ),
{
    let stem_size: usize = stem.as_bytes().len();
    let ext_size: usize = ext.as_bytes().len();
    let suffix_size: usize = suffix.as_bytes().len();
    let budget: usize = max.saturating_sub(suffix_size);
    let mut out = String::new();
    if stem_size + ext_size <= budget {
        out.append(stem);
        out.append(suffix);
        out.append(ext);
        proof {
            assert(out@ =~= stem@ + suffix@ + ext@);
            lemma_encode_concat(stem@, suffix@);
            lemma_encode_concat(stem@ + suffix@, ext@);
        }
    } else {
        let s = cut(stem, budget.saturating_sub(ext_size));
        proof {
            assert(s.spec_bytes() == cut_to(stem.spec_bytes(), budget - ext_size));
        }
        let left: usize = budget.saturating_sub(s.as_bytes().len());
        let e = cut(ext, left);
        proof {
            assert(e.spec_bytes() == cut_to(ext.spec_bytes(), budget - s.spec_bytes().len()));
        }
        out.append(s);
        out.append(suffix);
        out.append(e);
        proof {
            assert(out@ =~= s@ + suffix@ + e@);
            lemma_encode_concat(s@, suffix@);
            lemma_encode_concat(s@ + suffix@, e@);
        }
    }
    out
}

/// The path of the conflict copy of a losing entry:
///
/// ```text
/// <stem>.conflict-<modification time as UTC YYYYMMDD-HHMMSS>-<author host><ext>
/// ```
///
/// The name is split at its last extension; dotfiles and directories take the suffix on the whole
/// name; an empty host gives the short form of the author. The name is cut to fit
/// [`MAX_COMPONENT_LEN`] bytes. It is built from `l` alone, and there always is one.
pub fn conflict_copy_name(l: &Entry) -> (r: Option<RelPath>)
    ensures
        r is Some,
        r.deep_view() == Some(copy_path(l@)),
        valid_path(copy_path(l@)),
{
    let whole = l.path.as_str();
    let host = l.author_host.as_str();
    proof {
        law_copy_path_valid(l@);
        lemma_copy_name_good(l@);
    }
    let name = l.path.file_name();
    let ghost bytes = name.spec_bytes();
    let n: usize = split_name(name, l.kind);
    proof {
        vstd::utf8::encode_utf8_valid_utf8(name@);
        if n == bytes.len() {
            vstd::utf8::is_char_boundary_start_end_of_seq(bytes);
        } else {
            lemma_ascii_boundary(name@, n as int);
        }
    }
    let (stem, ext) = name.split_at(n);
    assert(stem.spec_bytes() =~= bytes.take(n as int));
    assert(ext.spec_bytes() =~= bytes.skip(n as int));
    let mut suffix = String::new();
    suffix.append(".conflict-");
    suffix.append(format_utc_compact(l.mtime_ns).as_str());
    suffix.append("-");
    let ghost head = suffix@;
    assert(head =~= ".conflict-"@ + utc_text(l.mtime_ns as int) + "-"@);
    if l.author_host.is_empty() {
        let short = l.modified_by.short().to_string();
        suffix.append(short.as_str());
        proof {
            lemma_encode_concat(head, short@);
        }
    } else {
        suffix.append(host);
        proof {
            lemma_encode_concat(head, host@);
        }
    }
    let name_len: usize = name.as_bytes().len();
    let file_name = fit(stem, suffix.as_str(), ext, MAX_COMPONENT_LEN);
    assert(encode_utf8(file_name@) == copy_name(l@));
    match l.path.parent() {
        Some(parent) => match parent.join(file_name.as_str()) {
            Ok(p) => Some(p),
            Err(_) => None,
        },
        None => match RelPath::new(file_name.as_str()) {
            Ok(p) => Some(p),
            Err(_) => None,
        },
    }
}

} // verus!
