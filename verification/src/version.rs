//! Version vectors.
//!
//! Every entry carries a [`Version`]: a counter for each node, zero where none is stored. Three
//! operations: comparing, merging (the larger counter of each node), and the local change, which
//! raises this node's own counter by one.

use crate::id::NodeId;
use crate::order::{in_order, lemma_in_order_exists};
use crate::ordmap::{OrdMap, Value};
use crate::text::{decimal_text, hex_text, push_decimal};
use vstd::prelude::*;
use vstd::string::*;

verus! {

/// How two versions relate.
#[derive(Clone, Copy, Debug, PartialEq, Eq, Hash, Structural)]
pub enum Relation {
    /// Same counters for every node.
    Equal,
    /// `self` is at least `other` everywhere and greater somewhere.
    Dominates,
    /// `other` is at least `self` everywhere and greater somewhere.
    Dominated,
    /// Each is greater somewhere.
    Concurrent,
}

impl Relation {
    /// The relation seen from the other side.
    pub open spec fn flipped(self) -> Relation {
        match self {
            Relation::Dominates => Relation::Dominated,
            Relation::Dominated => Relation::Dominates,
            Relation::Equal => Relation::Equal,
            Relation::Concurrent => Relation::Concurrent,
        }
    }

    /// The relation seen from the other side.
    pub fn flip(self) -> (r: Relation)
        ensures
            r == self.flipped(),
    {
        match self {
            Relation::Dominates => Relation::Dominated,
            Relation::Dominated => Relation::Dominates,
            other => other,
        }
    }

    /// True for `Dominates` and `Equal`: at least as much.
    pub fn dominates_or_equal(self) -> (r: bool)
        ensures
            r == (self == Relation::Dominates || self == Relation::Equal),
    {
        matches!(self, Relation::Dominates | Relation::Equal)
    }
}

/// What a version is: the nodes with a counter, each with its counter.
pub type Vector = Map<NodeId, u64>;

/// Whether only counters above zero are stored.
pub open spec fn normal(v: Vector) -> bool {
    &&& v.dom().finite()
    &&& forall|n: NodeId| #[trigger] v.contains_key(n) ==> v[n] > 0
}

/// A node's counter, zero if none is stored.
pub open spec fn counter_of(v: Vector, n: NodeId) -> u64 {
    if v.contains_key(n) {
        v[n]
    } else {
        0
    }
}

/// Whether `a` is at least `b` for every node.
pub open spec fn covers(a: Vector, b: Vector) -> bool {
    forall|n: NodeId| #[trigger] counter_of(a, n) >= counter_of(b, n)
}

/// How two versions relate.
pub open spec fn relation(a: Vector, b: Vector) -> Relation {
    if covers(a, b) {
        if covers(b, a) {
            Relation::Equal
        } else {
            Relation::Dominates
        }
    } else if covers(b, a) {
        Relation::Dominated
    } else {
        Relation::Concurrent
    }
}

/// The larger counter of each node.
pub open spec fn join(a: Vector, b: Vector) -> Vector {
    Map::new(
        |n: NodeId| a.contains_key(n) || b.contains_key(n),
        |n: NodeId|
            if counter_of(a, n) >= counter_of(b, n) {
                counter_of(a, n)
            } else {
                counter_of(b, n)
            },
    )
}

/// One node's counter raised by one, held at the end of the range.
pub open spec fn raise(v: Vector, n: NodeId) -> Vector {
    v.insert(
        n,
        if counter_of(v, n) < u64::MAX {
            (counter_of(v, n) + 1) as u64
        } else {
            u64::MAX
        },
    )
}

/// The version that a list of counters spells: the last one of a node counts, and a zero stores
/// nothing.
pub open spec fn vector_of(pairs: Seq<(NodeId, u64)>) -> Vector
    decreases pairs.len(),
{
    if pairs.len() == 0 {
        Map::empty()
    } else {
        let (n, c) = pairs.last();
        if c == 0 {
            vector_of(pairs.drop_last()).remove(n)
        } else {
            vector_of(pairs.drop_last()).insert(n, c)
        }
    }
}

// ---- laws -------------------------------------------------------------------

/// A version equals itself.
pub proof fn law_compare_reflexive(a: Vector)
    ensures
        relation(a, a) == Relation::Equal,
{
}

/// Versions compare as equal exactly when they are equal.
pub proof fn law_equal_is_equality(a: Vector, b: Vector)
    requires
        normal(a),
        normal(b),
    ensures
        relation(a, b) == Relation::Equal <==> a == b,
{
    if relation(a, b) == Relation::Equal {
        assert forall|n: NodeId| #[trigger] a.contains_key(n) <==> b.contains_key(n) by {
            assert(counter_of(a, n) >= counter_of(b, n));
            assert(counter_of(b, n) >= counter_of(a, n));
        }
        assert forall|n: NodeId| #[trigger] a.contains_key(n) implies a[n] == b[n] by {
            assert(counter_of(a, n) >= counter_of(b, n));
            assert(counter_of(b, n) >= counter_of(a, n));
        }
        assert(a =~= b);
    }
}

/// The two sides of a comparison are mirror images.
pub proof fn law_compare_antisymmetric(a: Vector, b: Vector)
    ensures
        relation(a, b).flipped() == relation(b, a),
        relation(a, b) == Relation::Dominates ==> relation(b, a) != Relation::Dominates,
{
}

/// Being at least as much is transitive, and stays strict if either step is.
pub proof fn law_dominance_transitive(a: Vector, b: Vector, c: Vector)
    requires
        covers(a, b),
        covers(b, c),
    ensures
        covers(a, c),
        relation(a, b) == Relation::Dominates || relation(b, c) == Relation::Dominates
            ==> relation(a, c) == Relation::Dominates,
{
    assert forall|n: NodeId| #[trigger] counter_of(a, n) >= counter_of(c, n) by {
        assert(counter_of(b, n) >= counter_of(c, n));
    }
    if !covers(b, a) {
        let n = choose|n: NodeId| !(#[trigger] counter_of(b, n) >= counter_of(a, n));
        assert(counter_of(b, n) >= counter_of(c, n));
        assert(!(counter_of(c, n) >= counter_of(a, n)));
    }
    if !covers(c, b) {
        let n = choose|n: NodeId| !(#[trigger] counter_of(c, n) >= counter_of(b, n));
        assert(counter_of(a, n) >= counter_of(b, n));
        assert(!(counter_of(c, n) >= counter_of(a, n)));
    }
}

proof fn lemma_join_counters(a: Vector, b: Vector)
    ensures
        forall|n: NodeId|
            #[trigger] counter_of(join(a, b), n) == if counter_of(a, n) >= counter_of(b, n) {
                counter_of(a, n)
            } else {
                counter_of(b, n)
            },
{
}

/// Merging keeps a version normal.
pub proof fn lemma_join_normal(a: Vector, b: Vector)
    requires
        normal(a),
        normal(b),
    ensures
        normal(join(a, b)),
{
    assert(join(a, b).dom() =~= a.dom().union(b.dom()));
}

/// Raising a counter stores no zero.
pub proof fn law_increment_normal(a: Vector, n: NodeId)
    requires
        normal(a),
    ensures
        normal(raise(a, n)),
{
}

/// Merging does not depend on the order of the two.
pub proof fn law_merge_commutative(a: Vector, b: Vector)
    ensures
        join(a, b) == join(b, a),
{
    assert(join(a, b) =~= join(b, a));
}

/// Merging does not depend on the grouping of three.
pub proof fn law_merge_associative(a: Vector, b: Vector, c: Vector)
    ensures
        join(join(a, b), c) == join(a, join(b, c)),
{
    assert(join(join(a, b), c) =~= join(a, join(b, c)));
}

/// Merging a version again changes nothing.
pub proof fn law_merge_idempotent(a: Vector, b: Vector)
    ensures
        join(a, a) == a,
        join(join(a, b), b) == join(a, b),
        join(join(a, b), a) == join(a, b),
{
    assert(join(a, a) =~= a);
    assert(join(join(a, b), b) =~= join(a, b));
    assert(join(join(a, b), a) =~= join(a, b));
}

/// The merge is at least as much as both, and nothing smaller is.
pub proof fn law_merge_least_upper_bound(a: Vector, b: Vector, c: Vector)
    ensures
        covers(join(a, b), a),
        covers(join(a, b), b),
        covers(c, a) && covers(c, b) ==> covers(c, join(a, b)),
{
    lemma_join_counters(a, b);
    if covers(c, a) && covers(c, b) {
        assert forall|n: NodeId| #[trigger] counter_of(c, n) >= counter_of(join(a, b), n) by {
            assert(counter_of(c, n) >= counter_of(a, n));
            assert(counter_of(c, n) >= counter_of(b, n));
        }
    }
}

/// Merging two concurrent versions gives one that dominates both.
pub proof fn law_merge_of_concurrent_dominates(a: Vector, b: Vector)
    requires
        relation(a, b) == Relation::Concurrent,
    ensures
        relation(join(a, b), a) == Relation::Dominates,
        relation(join(a, b), b) == Relation::Dominates,
{
    law_merge_least_upper_bound(a, b, a);
    lemma_join_counters(a, b);
    let n = choose|n: NodeId| !(#[trigger] counter_of(a, n) >= counter_of(b, n));
    assert(!(counter_of(a, n) >= counter_of(join(a, b), n)));
    let m = choose|m: NodeId| !(#[trigger] counter_of(b, m) >= counter_of(a, m));
    assert(!(counter_of(b, m) >= counter_of(join(a, b), m)));
}

/// A local change dominates what it changed, and raises one counter by exactly one.
pub proof fn law_increment(v: Vector, n: NodeId, other: NodeId)
    requires
        counter_of(v, n) < u64::MAX,
    ensures
        relation(raise(v, n), v) == Relation::Dominates,
        counter_of(raise(v, n), n) == counter_of(v, n) + 1,
        other != n ==> counter_of(raise(v, n), other) == counter_of(v, other),
{
    assert(!(counter_of(v, n) >= counter_of(raise(v, n), n)));
}

/// Changes that two nodes make to one version independently are concurrent.
pub proof fn law_independent_increments_concurrent(v: Vector, n: NodeId, m: NodeId)
    requires
        n != m,
        counter_of(v, n) < u64::MAX,
        counter_of(v, m) < u64::MAX,
    ensures
        relation(raise(v, n), raise(v, m)) == Relation::Concurrent,
{
    assert(!(counter_of(raise(v, m), n) >= counter_of(raise(v, n), n)));
    assert(!(counter_of(raise(v, n), m) >= counter_of(raise(v, m), m)));
}

/// The version that nobody has touched is below every other.
pub proof fn law_empty_is_least(v: Vector)
    requires
        normal(v),
    ensures
        covers(v, Map::empty()),
        v != Map::<NodeId, u64>::empty() ==> relation(v, Map::empty()) == Relation::Dominates,
{
    if v != Map::<NodeId, u64>::empty() {
        law_equal_is_equality(v, Map::empty());
    }
}

// ---- the type ---------------------------------------------------------------

/// A version vector: a counter for each node, zero where none is stored.
#[derive(Debug, PartialEq, Eq)]
pub struct Version {
    counters: OrdMap<NodeId, u64>,
}

impl View for Version {
    type V = Vector;

    closed spec fn view(&self) -> Vector {
        self.counters@
    }
}

impl DeepView for Version {
    type V = Vector;

    open spec fn deep_view(&self) -> Vector {
        self.view()
    }
}

impl Version {
    #[verifier::type_invariant]
    spec fn wf(self) -> bool {
        normal(self.counters@)
    }

    /// The version of an entry nobody has touched.
    pub fn empty() -> (r: Version)
        ensures
            r@ == Map::<NodeId, u64>::empty(),
    {
        Version { counters: OrdMap::new() }
    }

    /// True if no node has a counter above zero.
    pub fn is_empty(&self) -> (r: bool)
        ensures
            r == (self@ == Map::<NodeId, u64>::empty()),
            normal(self@),
    {
        proof {
            use_type_invariant(self);
        }
        self.counters.is_empty()
    }

    /// This node's counter, 0 if absent.
    pub fn counter(&self, node: NodeId) -> (r: u64)
        ensures
            r == counter_of(self@, node),
            normal(self@),
    {
        proof {
            use_type_invariant(self);
        }
        match self.counters.get(&node) {
            Some(c) => *c,
            None => 0,
        }
    }

    /// Nodes with a counter above zero, in byte order, with their counters.
    pub fn iter(&self) -> (r: Vec<(NodeId, u64)>)
        ensures
            r.len() == in_order(self@.dom()).len(),
            forall|i: int|
                0 <= i < r.len() ==> (#[trigger] r@[i]).0 == in_order(self@.dom())[i] && r@[i].1
                    == self@[r@[i].0],
            vector_of(r@) == self@,
    {
        let mut out: Vec<(NodeId, u64)> = Vec::new();
        let mut i: usize = 0;
        let ghost ks = in_order(self@.dom());
        let n: usize = self.counters.len();
        proof {
            use_type_invariant(self);
            lemma_in_order_exists(self@.dom());
            crate::order::lemma_increasing_distinct(ks);
            assert(vector_of(out@) =~= self@.restrict(ks.take(0).to_set()));
        }
        while i < n
            invariant
                i <= n,
                n == self@.dom().len(),
                n == ks.len(),
                self@ == self.counters@,
                ks == in_order(self@.dom()),
                ks.no_duplicates(),
                normal(self@),
                out.len() == i,
                forall|j: int|
                    0 <= j < i ==> (#[trigger] out@[j]).0 == ks[j] && out@[j].1 == self@[ks[j]],
                vector_of(out@) == self@.restrict(ks.take(i as int).to_set()),
            decreases n - i,
        {
            let k: NodeId = *self.counters.key_at(i);
            let c: u64 = *self.counters.value_at(i);
            let ghost before = out@;
            out.push((k, c));
            proof {
                assert(out@.drop_last() =~= before);
                assert(ks.take(i + 1).drop_last() =~= ks.take(i as int));
                let old_keys = ks.take(i as int);
                let new_keys = ks.take(i + 1);
                assert(new_keys =~= old_keys.push(k));
                old_keys.lemma_push_to_set_commute(k);
                assert(vector_of(out@) =~= self@.restrict(ks.take(i + 1).to_set()));
            }
            i = i + 1;
        }
        proof {
            assert(ks.take(i as int) =~= ks);
            assert(self@.restrict(ks.to_set()) =~= self@);
        }
        out
    }

    /// The version that a list of counters spells. Zeros are dropped.
    pub fn from_pairs(pairs: &Vec<(NodeId, u64)>) -> (r: Version)
        ensures
            r@ == vector_of(pairs@),
    {
        let mut counters: OrdMap<NodeId, u64> = OrdMap::new();
        let mut i: usize = 0;
        assert(pairs@.take(0) =~= Seq::empty());
        assert(counters@ =~= vector_of(pairs@.take(0)));
        while i < pairs.len()
            invariant
                i <= pairs.len(),
                counters@ == vector_of(pairs@.take(i as int)),
                normal(counters@),
            decreases pairs.len() - i,
        {
            assert(pairs@.take(i + 1).drop_last() =~= pairs@.take(i as int));
            let n: NodeId = pairs[i].0;
            let c: u64 = pairs[i].1;
            if c == 0 {
                counters.remove(&n);
            } else {
                counters.insert(n, c);
            }
            i = i + 1;
        }
        assert(pairs@.take(i as int) =~= pairs@);
        Version { counters }
    }

    /// Compares two versions. Missing counters read as 0.
    pub fn compare(&self, other: &Version) -> (r: Relation)
        ensures
            r == relation(self@, other@),
            normal(self@),
            normal(other@),
    {
        proof {
            use_type_invariant(self);
            use_type_invariant(other);
        }
        let mut self_greater = false;
        let mut other_greater = false;
        let n: usize = self.counters.len();
        let m: usize = other.counters.len();
        let ghost ks = in_order(self@.dom());
        let ghost ls = in_order(other@.dom());
        let mut i: usize = 0;
        while i < n
            invariant
                i <= n,
                n == self@.dom().len(),
                n == ks.len(),
                self@ == self.counters@,
                ks == in_order(self@.dom()),
                self_greater ==> !covers(other@, self@),
                other_greater ==> !covers(self@, other@),
                !self_greater ==> forall|j: int|
                    0 <= j < i ==> counter_of(other@, #[trigger] ks[j]) >= counter_of(self@, ks[j]),
                !other_greater ==> forall|j: int|
                    0 <= j < i ==> counter_of(self@, #[trigger] ks[j]) >= counter_of(other@, ks[j]),
            decreases n - i,
        {
            let node: NodeId = *self.counters.key_at(i);
            let mine: u64 = *self.counters.value_at(i);
            let theirs: u64 = other.counter(node);
            if mine > theirs {
                self_greater = true;
                assert(!(counter_of(other@, node) >= counter_of(self@, node)));
            } else if mine < theirs {
                other_greater = true;
                assert(!(counter_of(self@, node) >= counter_of(other@, node)));
            }
            i = i + 1;
        }
        let mut k: usize = 0;
        while k < m
            invariant
                k <= m,
                m == other@.dom().len(),
                m == ls.len(),
                self@ == self.counters@,
                other@ == other.counters@,
                ls == in_order(other@.dom()),
                normal(other@),
                other_greater ==> !covers(self@, other@),
                !other_greater ==> forall|j: int|
                    0 <= j < ks.len() ==> counter_of(self@, #[trigger] ks[j]) >= counter_of(
                        other@,
                        ks[j],
                    ),
                !other_greater ==> forall|j: int|
                    0 <= j < k ==> self@.contains_key(#[trigger] ls[j]),
            decreases m - k,
        {
            let node: &NodeId = other.counters.key_at(k);
            if !self.counters.contains_key(node) {
                other_greater = true;
                assert(!(counter_of(self@, *node) >= counter_of(other@, *node)));
            }
            k = k + 1;
        }
        proof {
            lemma_in_order_exists(self@.dom());
            lemma_in_order_exists(other@.dom());
            if !self_greater {
                assert forall|x: NodeId| #[trigger] counter_of(other@, x) >= counter_of(
                    self@,
                    x,
                ) by {
                    if self@.contains_key(x) {
                        assert(ks.contains(x));
                    }
                }
            }
            if !other_greater {
                assert forall|x: NodeId| #[trigger] counter_of(self@, x) >= counter_of(
                    other@,
                    x,
                ) by {
                    if other@.contains_key(x) {
                        assert(ls.contains(x));
                        assert(self@.contains_key(x));
                        assert(ks.contains(x));
                    }
                }
            }
        }
        if self_greater {
            if other_greater {
                Relation::Concurrent
            } else {
                Relation::Dominates
            }
        } else if other_greater {
            Relation::Dominated
        } else {
            Relation::Equal
        }
    }

    /// `self` dominates `other` strictly.
    pub fn dominates(&self, other: &Version) -> (r: bool)
        ensures
            r == (relation(self@, other@) == Relation::Dominates),
    {
        self.compare(other) == Relation::Dominates
    }

    /// `self` dominates or equals `other`.
    pub fn dominates_or_equals(&self, other: &Version) -> (r: bool)
        ensures
            r == covers(self@, other@),
    {
        self.compare(other).dominates_or_equal()
    }

    /// The larger counter of each node, without an increment.
    pub fn merge(&self, other: &Version) -> (r: Version)
        ensures
            r@ == join(self@, other@),
    {
        proof {
            use_type_invariant(self);
            use_type_invariant(other);
        }
        let mut out: OrdMap<NodeId, u64> = self.counters.dup();
        let n: usize = other.counters.len();
        let ghost ks = in_order(other@.dom());
        let mut i: usize = 0;
        proof {
            lemma_in_order_exists(other@.dom());
            crate::order::lemma_increasing_distinct(ks);
        }
        while i < n
            invariant
                i <= n,
                n == other@.dom().len(),
                n == ks.len(),
                other@ == other.counters@,
                ks == in_order(other@.dom()),
                ks.no_duplicates(),
                forall|j: int| 0 <= j < n ==> other@.contains_key(#[trigger] ks[j]),
                forall|x: NodeId| self@.contains_key(x) ==> #[trigger] out@.contains_key(x),
                forall|x: NodeId|
                    #[trigger] out@.contains_key(x) ==> self@.contains_key(x)
                        || other@.contains_key(x),
                forall|x: NodeId|
                    #[trigger] out@.contains_key(x) ==> out@[x] == join(self@, other@)[x] || (
                    self@.contains_key(x) && out@[x] == self@[x]),
                forall|j: int|
                    0 <= j < i ==> out@.contains_key(#[trigger] ks[j]) && out@[ks[j]] == join(
                        self@,
                        other@,
                    )[ks[j]],
                forall|x: NodeId|
                    self@.contains_key(x) && !other@.contains_key(x) ==> #[trigger] out@[x]
                        == self@[x],
                forall|j: int|
                    i <= j < n ==> (out@.contains_key(#[trigger] ks[j]) <==> self@.contains_key(
                        ks[j],
                    )) && (self@.contains_key(ks[j]) ==> out@[ks[j]] == self@[ks[j]]),
            decreases n - i,
        {
            let node: NodeId = *other.counters.key_at(i);
            let theirs: u64 = *other.counters.value_at(i);
            let mine: u64 = match out.get(&node) {
                Some(c) => *c,
                None => 0,
            };
            assert(node == ks[i as int]);
            assert(mine == counter_of(self@, node));
            let larger: u64 = if mine >= theirs {
                mine
            } else {
                theirs
            };
            out.insert(node, larger);
            i = i + 1;
        }
        proof {
            let r = join(self@, other@);
            assert forall|x: NodeId| #[trigger] r.contains_key(x) <==> out@.contains_key(x) by {
                if other@.contains_key(x) {
                    assert(ks.contains(x));
                }
            }
            assert forall|x: NodeId| #[trigger] r.contains_key(x) implies out@[x] == r[x] by {
                if other@.contains_key(x) {
                    assert(ks.contains(x));
                }
            }
            assert(out@ =~= r);
            lemma_join_normal(self@, other@);
        }
        Version { counters: out }
    }

    /// This vector with `node`'s counter one higher, held at the end of the range.
    pub fn incremented(&self, node: NodeId) -> (r: Version)
        ensures
            r@ == raise(self@, node),
    {
        proof {
            use_type_invariant(self);
        }
        let mut out: OrdMap<NodeId, u64> = self.counters.dup();
        let c: u64 = self.counter(node);
        let next: u64 = if c < u64::MAX {
            c + 1
        } else {
            c
        };
        out.insert(node, next);
        Version { counters: out }
    }

    /// The counters by short node identifiers, in braces.
    pub fn debug_text(&self) -> (r: String)
        ensures
            r@ == "{"@ + counters_text(self@, in_order(self@.dom())) + "}"@,
    {
        let mut out = String::new();
        out.append("{");
        let n: usize = self.counters.len();
        let ghost ks = in_order(self@.dom());
        let mut i: usize = 0;
        assert(ks.take(0) =~= Seq::empty());
        assert(out@ =~= "{"@ + counters_text(self@, ks.take(0)));
        while i < n
            invariant
                i <= n,
                n == self@.dom().len(),
                n == ks.len(),
                self@ == self.counters@,
                ks == in_order(self@.dom()),
                out@ == "{"@ + counters_text(self@, ks.take(i as int)),
            decreases n - i,
        {
            let node: NodeId = *self.counters.key_at(i);
            let c: u64 = *self.counters.value_at(i);
            if i > 0 {
                out.append(", ");
            }
            out.append(node.short().to_string().as_str());
            out.append(": ");
            push_decimal(&mut out, c);
            proof {
                let t = ks.take(i + 1);
                assert(t.drop_last() =~= ks.take(i as int));
                assert(out@ =~= "{"@ + counters_text(self@, t));
            }
            i = i + 1;
        }
        assert(ks.take(i as int) =~= ks);
        out.append("}");
        out
    }
}

/// Counters by short node identifiers, separated by commas.
pub open spec fn counters_text(v: Vector, ks: Seq<NodeId>) -> Seq<char>
    decreases ks.len(),
{
    if ks.len() == 0 {
        Seq::empty()
    } else {
        counters_text(v, ks.drop_last()) + (if ks.len() > 1 {
            ", "@
        } else {
            Seq::empty()
        }) + hex_text(ks.last().bytes().take(4)) + ": "@ + decimal_text(v[ks.last()] as nat)
    }
}

impl Default for Version {
    fn default() -> (r: Version)
        ensures
            r@ == Map::<NodeId, u64>::empty(),
    {
        Version::empty()
    }
}

impl Clone for Version {
    fn clone(&self) -> (r: Version)
        ensures
            r@ == self@,
    {
        self.dup()
    }
}

impl Value for Version {
    fn dup(&self) -> (r: Version) {
        proof {
            use_type_invariant(self);
        }
        Version { counters: self.counters.dup() }
    }

    fn same(&self, other: &Version) -> (r: bool) {
        self.counters.same(&other.counters)
    }
}

} // verus!
