use delocal_engine::id::NodeId;
use delocal_engine::version::{Relation, Version};

/// A small pool of node IDs so generated versions share keys often.
fn node(i: u8) -> NodeId {
    let mut bytes = [0u8; 16];
    bytes[15] = i;
    NodeId::from_bytes(bytes)
}

fn version(pairs: &[(u8, u64)]) -> Version {
    let list: Vec<(NodeId, u64)> = pairs.iter().map(|(i, c)| (node(*i), *c)).collect();
    Version::from_pairs(&list)
}

#[test]
fn empty_is_dominated_by_anything_non_empty() {
    let e = Version::empty();
    let a = version(&[(0, 1)]);
    assert_eq!(e.compare(&a), Relation::Dominated);
    assert_eq!(a.compare(&e), Relation::Dominates);
    assert_eq!(e.compare(&e), Relation::Equal);
    assert!(e.is_empty());
}

#[test]
fn compare_treats_missing_as_zero() {
    let a = version(&[(0, 3)]);
    let b = version(&[(0, 3), (1, 5)]);
    assert_eq!(a.compare(&b), Relation::Dominated);
    let c = version(&[(0, 4)]);
    assert_eq!(c.compare(&b), Relation::Concurrent);
}

#[test]
fn the_deny_counterexample_from_the_plan() {
    // A plain bump of {A:3} to {A:4} does not dominate {A:3, B:5};

    // merge first.
    let local = version(&[(0, 3)]);
    let quarantined = version(&[(0, 3), (1, 5)]);
    let plain = local.incremented(node(0));
    assert_eq!(plain.compare(&quarantined), Relation::Concurrent);
    let deny = local.merge(&quarantined).incremented(node(0));
    assert_eq!(deny.compare(&quarantined), Relation::Dominates);
    assert_eq!(deny.compare(&local), Relation::Dominates);
}

#[test]
fn first_local_change_yields_one() {
    let v = Version::empty().incremented(node(2));
    assert_eq!(v.counter(node(2)), 1);
    assert_eq!(v.counter(node(0)), 0);
    assert_eq!(v.iter().len(), 1);
}

#[test]
fn increment_saturates_instead_of_panicking() {
    let v = version(&[(0, u64::MAX)]);
    assert_eq!(v.incremented(node(0)).counter(node(0)), u64::MAX);
}

#[test]
fn zero_counters_are_normalised_away() {
    let with_zero = version(&[(0, 0), (1, 2)]);
    let without = version(&[(1, 2)]);
    assert_eq!(with_zero, without);
    assert_eq!(with_zero.compare(&without), Relation::Equal);
    assert_eq!(with_zero.iter().len(), 1);
}

#[test]
fn debug_uses_short_ids() {
    let v = version(&[(1, 2)]);
    assert_eq!(v.debug_text(), "{00000000: 2}");
}

/// Every version over two nodes with counters up to two.
fn versions() -> Vec<Version> {
    let mut out = Vec::new();
    for a in 0..3u64 {
        for b in 0..3u64 {
            out.push(version(&[(0, a), (1, b)]));
        }
    }
    out
}

#[test]
fn compare_is_reflexive_and_antisymmetric() {
    for a in versions() {
        assert_eq!(a.compare(&a), Relation::Equal);
        for b in versions() {
            assert_eq!(a.compare(&b).flip(), b.compare(&a));
            assert_eq!(a.compare(&b) == Relation::Equal, a == b);
            if a.dominates(&b) {
                assert!(!b.dominates(&a));
            }
        }
    }
}

#[test]
fn dominance_is_transitive() {
    for a in versions() {
        for b in versions() {
            for c in versions() {
                if a.dominates_or_equals(&b) && b.dominates_or_equals(&c) {
                    assert!(a.dominates_or_equals(&c));
                }
            }
        }
    }
}

#[test]
fn merge_is_a_least_upper_bound() {
    for a in versions() {
        assert_eq!(a.merge(&a), a);
        for b in versions() {
            let m = a.merge(&b);
            assert_eq!(m, b.merge(&a));
            assert_eq!(m.merge(&b), m);
            assert!(m.dominates_or_equals(&a));
            assert!(m.dominates_or_equals(&b));
            for c in versions() {
                assert_eq!(m.merge(&c), a.merge(&b.merge(&c)));
                if c.dominates_or_equals(&a) && c.dominates_or_equals(&b) {
                    assert!(c.dominates_or_equals(&m));
                }
            }
        }
    }
}

#[test]
fn increments_dominate_and_are_independent() {
    for v in versions() {
        let a = v.incremented(node(0));
        let b = v.incremented(node(1));
        assert!(a.dominates(&v));
        assert_eq!(a.counter(node(0)), v.counter(node(0)) + 1);
        assert_eq!(a.counter(node(1)), v.counter(node(1)));
        assert_eq!(a.compare(&b), Relation::Concurrent);
    }
}

#[test]
fn pairs_round_trip_preserves_version() {
    for v in versions() {
        assert_eq!(Version::from_pairs(&v.iter()), v);
    }
    assert!(Version::default().is_empty());
    assert!(Relation::Equal.dominates_or_equal());
    assert!(!Relation::Concurrent.dominates_or_equal());
}

/// A fixed run of numbers.
struct Gen(u64);

impl Gen {
    fn below(&mut self, n: u64) -> u64 {
        self.0 = self.0.wrapping_mul(6364136223846793005).wrapping_add(1442695040888963407);
        (self.0 >> 33) % n
    }

    fn flag(&mut self) -> bool {
        self.below(2) == 1
    }
}

fn any_version(g: &mut Gen) -> Version {
    let n = g.below(5);
    let pairs: Vec<(u8, u64)> = (0..n).map(|_| (g.below(5) as u8, g.below(5))).collect();
    version(&pairs)
}

fn any_node(g: &mut Gen) -> NodeId {
    node(g.below(5) as u8)
}

#[test]
fn compare_is_reflexive() {
    let mut g = Gen(1);
    for _ in 0..200 {
        let a = any_version(&mut g);
        assert_eq!(a.compare(&a), Relation::Equal);
    }
}

#[test]
fn equal_relation_matches_equality() {
    let mut g = Gen(2);
    for _ in 0..500 {
        let (a, b) = (any_version(&mut g), any_version(&mut g));
        assert_eq!(a.compare(&b) == Relation::Equal, a == b);
    }
}

#[test]
fn compare_is_antisymmetric() {
    let mut g = Gen(3);
    for _ in 0..500 {
        let (a, b) = (any_version(&mut g), any_version(&mut g));
        assert_eq!(a.compare(&b).flip(), b.compare(&a));
        if a.dominates(&b) {
            assert!(!b.dominates(&a));
        }
    }
}

#[test]
fn merge_is_commutative() {
    let mut g = Gen(4);
    for _ in 0..500 {
        let (a, b) = (any_version(&mut g), any_version(&mut g));
        assert_eq!(a.merge(&b), b.merge(&a));
    }
}

#[test]
fn merge_is_associative() {
    let mut g = Gen(5);
    for _ in 0..500 {
        let (a, b, c) = (any_version(&mut g), any_version(&mut g), any_version(&mut g));
        assert_eq!(a.merge(&b).merge(&c), a.merge(&b.merge(&c)));
    }
}

#[test]
fn merge_is_idempotent() {
    let mut g = Gen(6);
    for _ in 0..500 {
        let (a, b) = (any_version(&mut g), any_version(&mut g));
        assert_eq!(a.merge(&a), a);
        let m = a.merge(&b);
        assert_eq!(m.merge(&b), m);
        assert_eq!(m.merge(&a), m);
    }
}

#[test]
fn merge_dominates_or_equals_both() {
    let mut g = Gen(7);
    for _ in 0..500 {
        let (a, b) = (any_version(&mut g), any_version(&mut g));
        let m = a.merge(&b);
        assert!(m.dominates_or_equals(&a));
        assert!(m.dominates_or_equals(&b));
    }
}

#[test]
fn merge_is_least_upper_bound() {
    let mut g = Gen(8);
    for _ in 0..2000 {
        let (a, b, c) = (any_version(&mut g), any_version(&mut g), any_version(&mut g));
        if c.dominates_or_equals(&a) && c.dominates_or_equals(&b) {
            assert!(c.dominates_or_equals(&a.merge(&b)));
        }
    }
}

#[test]
fn increment_dominates_original() {
    let mut g = Gen(9);
    for _ in 0..500 {
        let (v, n) = (any_version(&mut g), any_node(&mut g));
        assert!(v.incremented(n).dominates(&v));
    }
}

#[test]
fn increment_touches_only_its_node() {
    let mut g = Gen(10);
    for _ in 0..500 {
        let (v, n, other) = (any_version(&mut g), any_node(&mut g), any_node(&mut g));
        let inc = v.incremented(n);
        assert_eq!(inc.counter(n), v.counter(n) + 1);
        if other != n {
            assert_eq!(inc.counter(other), v.counter(other));
        }
    }
}

#[test]
fn independent_increments_are_concurrent() {
    let mut g = Gen(11);
    for _ in 0..500 {
        let (v, n, m) = (any_version(&mut g), any_node(&mut g), any_node(&mut g));
        if n != m {
            assert_eq!(v.incremented(n).compare(&v.incremented(m)), Relation::Concurrent);
        }
    }
}

#[test]
fn map_round_trip_preserves_version() {
    let mut g = Gen(12);
    for _ in 0..500 {
        let a = any_version(&mut g);
        let map: std::collections::BTreeMap<NodeId, u64> = a.iter().into_iter().collect();
        let pairs: Vec<(NodeId, u64)> = map.into_iter().collect();
        assert_eq!(Version::from_pairs(&pairs), a);
    }
}
