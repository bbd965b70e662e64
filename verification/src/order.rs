//! Total orders on ghost values, and the one sequence in which a set stands in order.

use vstd::prelude::*;

verus! {

/// A strict total order on a mathematical value.
pub trait Ordered: Sized {
    /// Whether `self` comes before `other`.
    spec fn before(self, other: Self) -> bool;

    /// Nothing comes before itself.
    proof fn irreflexive(a: Self)
        ensures
            !a.before(a),
    ;

    /// The order chains.
    proof fn transitive(a: Self, b: Self, c: Self)
        ensures
            a.before(b) && b.before(c) ==> a.before(c),
    ;

    /// Any two values are comparable.
    proof fn total(a: Self, b: Self)
        ensures
            a.before(b) || a == b || b.before(a),
    ;
}

impl Ordered for u64 {
    open spec fn before(self, other: u64) -> bool {
        self < other
    }

    proof fn irreflexive(a: u64) {
    }

    proof fn transitive(a: u64, b: u64, c: u64) {
    }

    proof fn total(a: u64, b: u64) {
    }
}

impl Ordered for u8 {
    open spec fn before(self, other: u8) -> bool {
        self < other
    }

    proof fn irreflexive(a: u8) {
    }

    proof fn transitive(a: u8, b: u8, c: u8) {
    }

    proof fn total(a: u8, b: u8) {
    }
}

/// `false` comes before `true`.
impl Ordered for bool {
    open spec fn before(self, other: bool) -> bool {
        !self && other
    }

    proof fn irreflexive(a: bool) {
    }

    proof fn transitive(a: bool, b: bool, c: bool) {
    }

    proof fn total(a: bool, b: bool) {
    }
}

/// The dictionary order on byte strings: the first differing byte decides, and a proper prefix
/// comes first.
pub open spec fn lex_lt(a: Seq<u8>, b: Seq<u8>) -> bool
    decreases b.len(),
{
    if b.len() == 0 {
        false
    } else if a.len() == 0 {
        true
    } else {
        a[0] < b[0] || (a[0] == b[0] && lex_lt(a.drop_first(), b.drop_first()))
    }
}

/// With fronts of one length, the fronts decide, and then the rest.
pub proof fn lemma_lex_concat(a: Seq<u8>, b: Seq<u8>, c: Seq<u8>, d: Seq<u8>)
    requires
        a.len() == c.len(),
    ensures
        lex_lt(a + b, c + d) <==> lex_lt(a, c) || (a == c && lex_lt(b, d)),
    decreases a.len(),
{
    if a.len() == 0 {
        assert(a + b =~= b);
        assert(c + d =~= d);
        assert(a =~= c);
    } else {
        let e = a.drop_first();
        let f = c.drop_first();
        assert((a + b).drop_first() =~= e + b);
        assert((c + d).drop_first() =~= f + d);
        lemma_lex_concat(e, b, f, d);
        if a[0] == c[0] && e == f {
            assert(a =~= seq![a[0]] + e);
            assert(c =~= seq![c[0]] + f);
        }
        if a == c {
            assert(e =~= f);
        }
    }
}

impl Ordered for Seq<u8> {
    open spec fn before(self, other: Seq<u8>) -> bool {
        lex_lt(self, other)
    }

    proof fn irreflexive(a: Seq<u8>)
        decreases a.len(),
    {
        if a.len() > 0 {
            Self::irreflexive(a.drop_first());
        }
    }

    proof fn transitive(a: Seq<u8>, b: Seq<u8>, c: Seq<u8>)
        decreases a.len(),
    {
        if a.len() > 0 && b.len() > 0 && c.len() > 0 && a[0] == b[0] && b[0] == c[0] {
            Self::transitive(a.drop_first(), b.drop_first(), c.drop_first());
        }
    }

    proof fn total(a: Seq<u8>, b: Seq<u8>)
        decreases a.len(),
    {
        if a.len() > 0 && b.len() > 0 && a[0] == b[0] {
            Self::total(a.drop_first(), b.drop_first());
            if a.drop_first() == b.drop_first() {
                assert(a =~= seq![a[0]] + a.drop_first());
                assert(b =~= seq![b[0]] + b.drop_first());
            }
        } else if a.len() == 0 && b.len() == 0 {
            assert(a =~= b);
        }
    }
}

impl<A: Ordered, B: Ordered> Ordered for (A, B) {
    open spec fn before(self, other: (A, B)) -> bool {
        self.0.before(other.0) || (self.0 == other.0 && self.1.before(other.1))
    }

    proof fn irreflexive(a: (A, B)) {
        A::irreflexive(a.0);
        B::irreflexive(a.1);
    }

    proof fn transitive(a: (A, B), b: (A, B), c: (A, B)) {
        if a.0.before(b.0) && b.0.before(c.0) {
            A::transitive(a.0, b.0, c.0);
        }
        if a.1.before(b.1) && b.1.before(c.1) {
            B::transitive(a.1, b.1, c.1);
        }
    }

    proof fn total(a: (A, B), b: (A, B)) {
        A::total(a.0, b.0);
        B::total(a.1, b.1);
    }
}

/// Whether each element comes before every later one.
pub open spec fn increasing<K: Ordered>(q: Seq<K>) -> bool {
    forall|i: int, j: int| 0 <= i < j < q.len() ==> #[trigger] q[i].before(#[trigger] q[j])
}

/// Whether `q` is the set `s` written in order, each element once.
pub open spec fn lists<K: Ordered>(q: Seq<K>, s: Set<K>) -> bool {
    &&& increasing(q)
    &&& forall|k: K| #[trigger] s.contains(k) <==> q.contains(k)
}

/// The set `s` in order.
pub closed spec fn in_order<K: Ordered>(s: Set<K>) -> Seq<K> {
    choose|q: Seq<K>| lists(q, s)
}

/// No element of an increasing sequence occurs twice.
pub proof fn lemma_increasing_distinct<K: Ordered>(q: Seq<K>)
    requires
        increasing(q),
    ensures
        q.no_duplicates(),
{
    assert forall|i: int, j: int| 0 <= i < q.len() && 0 <= j < q.len() && i != j implies q[i]
        != q[j] by {
        K::irreflexive(q[i]);
        if i < j {
            assert(q[i].before(q[j]));
        } else {
            assert(q[j].before(q[i]));
        }
    }
}

/// There is one way only to write a set in order.
pub proof fn lemma_lists_unique<K: Ordered>(p: Seq<K>, q: Seq<K>, s: Set<K>)
    requires
        lists(p, s),
        lists(q, s),
    ensures
        p == q,
    decreases p.len(),
{
    if p.len() == 0 {
        if q.len() > 0 {
            assert(q.contains(q[0]));
            assert(s.contains(q[0]));
        }
        assert(p =~= q);
    } else {
        let x = p.last();
        assert(p.contains(x));
        assert(s.contains(x));
        assert(q.len() > 0);
        let y = q.last();
        assert(q.contains(y));
        assert(s.contains(y));
        let i = choose|i: int| 0 <= i < q.len() && q[i] == x;
        let j = choose|j: int| 0 <= j < p.len() && p[j] == y;
        if i < q.len() - 1 {
            assert(q[i].before(q[q.len() - 1]));
            if j < p.len() - 1 {
                assert(p[j].before(p[p.len() - 1]));
                K::transitive(x, y, x);
            }
            K::irreflexive(x);
            assert(false);
        }
        assert(x == y);
        lemma_increasing_distinct(p);
        lemma_increasing_distinct(q);
        let s2 = s.remove(x);
        let p2 = p.drop_last();
        let q2 = q.drop_last();
        assert forall|k: K| #[trigger] s2.contains(k) <==> p2.contains(k) by {
            if s2.contains(k) {
                let a = choose|a: int| 0 <= a < p.len() && p[a] == k;
                assert(p2[a] == k);
            }
            if p2.contains(k) {
                let a = choose|a: int| 0 <= a < p2.len() && p2[a] == k;
                assert(p[a] == k);
                assert(p.contains(k));
            }
        }
        assert forall|k: K| #[trigger] s2.contains(k) <==> q2.contains(k) by {
            if s2.contains(k) {
                let a = choose|a: int| 0 <= a < q.len() && q[a] == k;
                assert(q2[a] == k);
            }
            if q2.contains(k) {
                let a = choose|a: int| 0 <= a < q2.len() && q2[a] == k;
                assert(q[a] == k);
                assert(q.contains(k));
            }
        }
        lemma_lists_unique(p2, q2, s2);
        assert(p =~= p2.push(x));
        assert(q =~= q2.push(y));
    }
}

/// A sequence that lists a set is that set in order.
pub proof fn lemma_in_order<K: Ordered>(q: Seq<K>, s: Set<K>)
    requires
        lists(q, s),
    ensures
        in_order(s) == q,
{
    let p = in_order(s);
    assert(lists(p, s));
    lemma_lists_unique(p, q, s);
}

/// Every finite set can be written in order.
pub proof fn lemma_in_order_exists<K: Ordered>(s: Set<K>)
    requires
        s.finite(),
    ensures
        lists(in_order(s), s),
        in_order(s).len() == s.len(),
    decreases s.len(),
{
    if s.len() == 0 {
        assert(s =~= Set::empty());
        assert(lists(Seq::<K>::empty(), s));
        lemma_in_order(Seq::<K>::empty(), s);
    } else {
        let x = s.choose();
        let r = s.remove(x);
        lemma_in_order_exists(r);
        let q = in_order(r);
        let n = lemma_place(q, x);
        let t = q.insert(n, x);
        assert forall|k: K| #[trigger] s.contains(k) <==> t.contains(k) by {
            if s.contains(k) {
                if k == x {
                    assert(t[n] == k);
                } else {
                    assert(r.contains(k));
                    let a = choose|a: int| 0 <= a < q.len() && q[a] == k;
                    if a < n {
                        assert(t[a] == k);
                    } else {
                        assert(t[a + 1] == k);
                    }
                }
            }
            if t.contains(k) {
                let a = choose|a: int| 0 <= a < t.len() && t[a] == k;
                if a < n {
                    assert(q.contains(q[a]));
                } else if a > n {
                    assert(q.contains(q[a - 1]));
                }
            }
        }
        assert(increasing(t));
        lemma_in_order(t, s);
    }
}

/// Where a new element goes in an increasing sequence.
pub proof fn lemma_place<K: Ordered>(q: Seq<K>, x: K) -> (n: int)
    requires
        increasing(q),
        !q.contains(x),
    ensures
        0 <= n <= q.len(),
        increasing(q.insert(n, x)),
        forall|i: int| 0 <= i < n ==> #[trigger] q[i].before(x),
        forall|i: int| n <= i < q.len() ==> x.before(#[trigger] q[i]),
    decreases q.len(),
{
    if q.len() == 0 {
        0
    } else {
        let y = q.last();
        assert(q.contains(y));
        K::total(x, y);
        if y.before(x) {
            assert forall|i: int| 0 <= i < q.len() implies #[trigger] q[i].before(x) by {
                if i < q.len() - 1 {
                    K::transitive(q[i], y, x);
                }
            }
            q.len() as int
        } else {
            let p = q.drop_last();
            assert forall|k: K| p.contains(k) implies q.contains(k) by {
                let a = choose|a: int| 0 <= a < p.len() && p[a] == k;
                assert(q[a] == k);
            }
            let n = lemma_place(p, x);
            assert forall|i: int| 0 <= i < n implies #[trigger] q[i].before(x) by {
                assert(p[i].before(x));
            }
            assert forall|i: int| n <= i < q.len() implies x.before(#[trigger] q[i]) by {
                if i < q.len() - 1 {
                    assert(x.before(p[i]));
                }
            }
            n
        }
    }
}

/// What is among the first elements of a sequence, one element further.
pub proof fn lemma_take_contains<A>(q: Seq<A>, i: int, x: A)
    requires
        0 <= i < q.len(),
    ensures
        q.take(i + 1).contains(x) <==> q.take(i).contains(x) || q[i] == x,
        q.take(i + 1) == q.take(i).push(q[i]),
        q.take(i + 1).drop_last() == q.take(i),
        q.no_duplicates() ==> !q.take(i).contains(q[i]),
{
    let t = q.take(i);
    let u = q.take(i + 1);
    assert(u =~= t.push(q[i]));
    assert(u.drop_last() =~= t);
    if t.contains(x) {
        let j = choose|j: int| 0 <= j < t.len() && t[j] == x;
        assert(u[j] == x);
    }
    if u.contains(x) {
        let j = choose|j: int| 0 <= j < u.len() && u[j] == x;
        if j < i {
            assert(t[j] == x);
        }
    }
    if q[i] == x {
        assert(u[i] == x);
    }
    if t.contains(q[i]) {
        let j = choose|j: int| 0 <= j < t.len() && t[j] == q[i];
        assert(q[j] == q[i]);
    }
}

/// The elements of a set in order: each is in the set, each of the set is there, none twice.
pub proof fn lemma_order_facts<K: Ordered>(s: Set<K>)
    requires
        s.finite(),
    ensures
        in_order(s).len() == s.len(),
        in_order(s).no_duplicates(),
        increasing(in_order(s)),
        forall|k: K| #[trigger] s.contains(k) <==> in_order(s).contains(k),
        forall|i: int| 0 <= i < in_order(s).len() ==> s.contains(#[trigger] in_order(s)[i]),
{
    lemma_in_order_exists(s);
    lemma_increasing_distinct(in_order(s));
    assert forall|i: int| 0 <= i < in_order(s).len() implies s.contains(
        #[trigger] in_order(s)[i],
    ) by {
        assert(in_order(s).contains(in_order(s)[i]));
    }
}

/// Compares two byte strings.
pub fn bytes_less(a: &[u8], b: &[u8]) -> (r: bool)
    ensures
        r == lex_lt(a@, b@),
{
    let mut i: usize = 0;
    assert(a@.skip(0) =~= a@);
    assert(b@.skip(0) =~= b@);
    while i < a.len() && i < b.len()
        invariant
            i <= a.len(),
            i <= b.len(),
            lex_lt(a@, b@) == lex_lt(a@.skip(i as int), b@.skip(i as int)),
        decreases a.len() - i,
    {
        assert(a@.skip(i as int).drop_first() =~= a@.skip(i + 1));
        assert(b@.skip(i as int).drop_first() =~= b@.skip(i + 1));
        if a[i] < b[i] {
            return true;
        }
        if a[i] > b[i] {
            return false;
        }
        i = i + 1;
    }
    i < b.len()
}

/// Whether two byte strings are the same.
pub fn bytes_same(a: &[u8], b: &[u8]) -> (r: bool)
    ensures
        r == (a@ == b@),
{
    if a.len() != b.len() {
        return false;
    }
    let mut i: usize = 0;
    while i < a.len()
        invariant
            i <= a.len(),
            a.len() == b.len(),
            forall|j: int| 0 <= j < i ==> a@[j] == b@[j],
        decreases a.len() - i,
    {
        if a[i] != b[i] {
            return false;
        }
        i = i + 1;
    }
    assert(a@ =~= b@);
    true
}

} // verus!
