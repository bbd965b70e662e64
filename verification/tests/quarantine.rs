use delocal_engine::brake::HoldReason;
use delocal_engine::entry::{ContentHash, Entry, Kind};
use delocal_engine::id::{BatchId, HostName, NodeId};
use delocal_engine::ordmap::OrdMap;
use delocal_engine::path::RelPath;
use delocal_engine::quarantine::{HeldItem, HeldState, Quarantine};
use delocal_engine::time::Timestamp;
use delocal_engine::version::Version;

fn node(i: u8) -> NodeId {
    let mut b = [0u8; 16];
    b[0] = i;
    NodeId::from_bytes(b)
}

fn batch(i: u8) -> BatchId {
    let mut b = [0u8; 16];
    b[15] = i;
    BatchId::from_bytes(b)
}

fn p(s: &str) -> RelPath {
    RelPath::new(s).unwrap()
}

fn entry(path: &str, version: Version) -> Entry {
    Entry {
        path: p(path),
        kind: Kind::File,
        size: 1,
        mtime_ns: 1,
        stamp: 1,
        executable: false,
        hash: ContentHash::empty(),
        prev_hash: ContentHash::empty(),
        version,
        deleted: false,
        modified_by: node(2),
        author_host: HostName::new("h").unwrap(),
    }
}

fn v(pairs: &[(u8, u64)]) -> Version {
    let list: Vec<(NodeId, u64)> = pairs.iter().map(|(n, c)| (node(*n), *c)).collect();
    Version::from_pairs(&list)
}

fn item(id: u8, list: Vec<Entry>) -> HeldItem {
    let mut entries = OrdMap::new();
    for e in list {
        entries.insert(e.path.clone(), e);
    }
    HeldItem {
        batch: batch(id),
        source: node(2),
        seq_high: 9,
        held_at: Timestamp::from_unix_nanos(1),
        reason: HoldReason::Size { bytes: 1 },
        entries,
    }
}

#[test]
fn a_withdrawn_item_is_reinstated_with_every_version_it_held() {
    let mut q = Quarantine::default();
    q.hold(item(
        1,
        vec![entry("a", v(&[(2, 3)])), entry("b", v(&[(2, 1)]))],
    ));
    assert!(
        q.join(batch(1), entry("a", v(&[(2, 2), (3, 1)]))),
        "a concurrent joiner"
    );
    q.hold(item(2, vec![entry("c", v(&[(4, 1)]))]));
    let before = q.clone();
    assert!(q.deny(batch(1)));
    assert_eq!(q.get(batch(1)), None);
    assert!(q.versions_at(&p("a")).is_empty());
    assert!(!q.deny(batch(9)));
    assert_eq!(q.return_denied(), [(batch(1), 2)]);
    for path in ["a", "b", "c"] {
        assert_eq!(q.versions_at(&p(path)), before.versions_at(&p(path)));
    }
    assert_eq!(
        q.items(),
        before.items()
    );
    assert_eq!(q.versions_at(&p("a")).len(), 2, "the joiner too");
    // The versions arrived again, after everything held before and
    // after the deny, which took arrival 5.
    let arrivals: Vec<u64> = q.row(batch(1))
        .unwrap()
        .versions
        .get(&p("a"))
        .unwrap()
        .iter()
        .map(|q| q.arrival)
        .collect();
    assert_eq!(arrivals, [6, 7]);
    assert_eq!(q.denied().len(), 0);
}

#[test]
fn holding_under_an_existing_id_joins_the_item() {
    let mut q = Quarantine::default();
    q.hold(item(1, vec![entry("a", v(&[(2, 1)]))]));
    q.hold(item(1, vec![entry("b", v(&[(2, 2)]))]));
    assert_eq!(q.len(), 1);
    let held = q.get(batch(1)).unwrap();
    assert_eq!(paths_of(held), [p("a"), p("b")]);
    assert_eq!(q.versions_at(&p("a")), vec![v(&[(2, 1)])]);

    let released = q.release(batch(1)).unwrap();
    assert_eq!(released.entries.len(), 2);
    assert!(q.versions_at(&p("a")).is_empty());
    assert!(q.versions_at(&p("b")).is_empty());
    assert_eq!(q.matching(&entry("a", v(&[(2, 5)]))), None);
}

#[test]
fn an_item_returned_by_revert_joins_the_item_holding_its_id() {
    let mut q = Quarantine::default();
    q.hold(item(1, vec![entry("d1/f10", v(&[(2, 4), (3, 1)]))]));
    assert!(q.deny(batch(1)));
    q.hold(item(1, vec![entry("f0", v(&[(4, 1)]))]));
    q.return_denied();
    let held = q.get(batch(1)).unwrap();
    assert_eq!(
        paths_of(held),
        [p("d1/f10"), p("f0")]
    );
    assert_eq!(
        q.matching(&entry("d1/f10", v(&[(2, 8), (3, 9)]))),
        Some(batch(1)),
        "a later version at d1/f10 joins an item that exists"
    );

    q.release(batch(1)).unwrap();
    assert!(q.versions_at(&p("d1/f10")).is_empty());
    assert!(q.versions_at(&p("f0")).is_empty());
}

#[test]
fn same_version_from_anyone_and_dominating_versions_match() {
    let mut q = Quarantine::default();
    q.hold(item(
        1,
        vec![entry("a", v(&[(2, 3)])), entry("b", v(&[(2, 1)]))],
    ));
    assert_eq!(
        q.matching(&entry("a", v(&[(2, 3)]))),
        Some(batch(1)),
        "equal"
    );
    assert_eq!(
        q.matching(&entry("a", v(&[(2, 4)]))),
        Some(batch(1)),
        "dominates"
    );
    assert_eq!(
        q.matching(&entry("a", v(&[(2, 3), (3, 1)]))),
        Some(batch(1))
    );
    assert_eq!(
        q.matching(&entry("a", v(&[(2, 2)]))),
        None,
        "dominated: an older version"
    );
    assert_eq!(q.matching(&entry("a", v(&[(3, 9)]))), None, "concurrent");
    assert_eq!(
        q.matching(&entry("c", v(&[(2, 3)]))),
        None,
        "unrelated path"
    );
}

#[test]
fn join_keeps_the_dominating_entry_and_release_clears_versions() {
    let mut q = Quarantine::default();
    q.hold(item(1, vec![entry("a", v(&[(2, 3)]))]));
    assert!(q.join(batch(1), entry("a", v(&[(2, 4)]))));
    assert_eq!(
        q.get(batch(1)).unwrap().entries.get(&p("a")).unwrap().version,
        v(&[(2, 4)])
    );
    assert!(
        q.join(batch(1), entry("a", v(&[(2, 3)]))),
        "older join is recorded, not stored"
    );
    assert_eq!(
        q.get(batch(1)).unwrap().entries.get(&p("a")).unwrap().version,
        v(&[(2, 4)])
    );
    assert_eq!(q.versions_at(&p("a")).len(), 2);
    assert!(!q.join(batch(7), entry("a", v(&[(2, 5)]))));
    let released = q.release(batch(1)).unwrap();
    assert_eq!(released.entries.len(), 1);
    assert!(q.is_empty());
    assert!(q.versions_at(&p("a")).is_empty());
    assert_eq!(q.matching(&entry("a", v(&[(2, 4)]))), None);
}

#[test]
fn a_concurrent_joiner_is_recorded_with_its_stamp() {
    let mut q = Quarantine::default();
    q.hold(item(1, vec![entry("a", v(&[(2, 3)]))]));
    let mut joiner = entry("a", v(&[(3, 1)]));
    joiner.stamp = 50;
    assert!(q.join(batch(1), joiner));
    assert_eq!(
        q.get(batch(1)).unwrap().entries.get(&p("a")).unwrap().version,
        v(&[(2, 3)]),
        "concurrent: the stored entry stays"
    );
    assert_eq!(q.versions_at(&p("a")).len(), 2);
    assert_eq!(
        q.max_stamp_at(&p("a")),
        Some(50),
        "the bump over both versions must start above the joiner too"
    );
    q.release(batch(1));
    assert_eq!(q.max_stamp_at(&p("a")), None);
}

#[test]
fn two_items_can_hold_the_same_path() {
    let mut q = Quarantine::default();
    q.hold(item(1, vec![entry("a", v(&[(2, 3)]))]));
    q.hold(item(2, vec![entry("a", v(&[(3, 1)]))]));
    assert_eq!(q.len(), 2);
    assert_eq!(q.versions_at(&p("a")).len(), 2);
    q.release(batch(1));
    assert_eq!(q.versions_at(&p("a")), vec![v(&[(3, 1)])]);
    assert_eq!(q.matching(&entry("a", v(&[(3, 2)]))), Some(batch(2)));
}

#[test]
fn held_items_report_their_rows_as_they_change() {
    let mut q = Quarantine::default();
    q.hold(item(1, vec![entry("a", v(&[(2, 3)]))]));
    q.hold(item(2, vec![entry("a", v(&[(3, 1)]))]));
    q.join(batch(1), entry("a", v(&[(2, 2), (4, 1)])));
    let changes = q.drain_changes();
    assert_eq!(
        changes.iter().map(|(b, s, _)| (*b, *s)).collect::<Vec<_>>(),
        [(batch(1), HeldState::Held), (batch(2), HeldState::Held)]
    );
    let row = changes[0].2.as_ref().unwrap();
    let held: Vec<(Version, u64)> = row
        .versions
        .get(&p("a"))
        .unwrap()
        .iter()
        .map(|q| (q.version.clone(), q.arrival))
        .collect();
    assert_eq!(
        held,
        [(v(&[(2, 3)]), 1), (v(&[(2, 2), (4, 1)]), 3)],
        "the joiner too, after the other item's version"
    );
    assert!(q.drain_changes().is_empty());
    q.release(batch(2));
    assert_eq!(q.drain_changes(), [(batch(2), HeldState::Held, None)]);

    // A denied item is a row of its own until the deny is announced,
    // and a second deny of the same id is another row after it.
    assert!(q.deny(batch(1)));
    q.hold(item(1, vec![entry("b", v(&[(2, 1)]))]));
    assert!(q.deny(batch(1)));
    let changes = q.drain_changes();
    let keys: Vec<(BatchId, HeldState)> = changes.iter().map(|(b, s, _)| (*b, *s)).collect();
    assert_eq!(
        keys,
        [
            (batch(1), HeldState::Held),
            (batch(1), HeldState::Denied { at: 4 }),
            (batch(1), HeldState::Denied { at: 6 }),
        ]
    );
    assert!(changes[0].2.is_none() && changes[1].2.is_some() && changes[2].2.is_some());
    q.forget_denied();
    assert_eq!(
        q.drain_changes(),
        [
            (batch(1), HeldState::Denied { at: 4 }, None),
            (batch(1), HeldState::Denied { at: 6 }, None),
        ]
    );
}

#[test]
fn a_quarantine_rebuilt_from_its_rows_keeps_the_arrival_order() {
    let mut q = Quarantine::default();
    q.hold(item(2, vec![entry("a", v(&[(2, 3)]))]));
    q.hold(item(
        1,
        vec![entry("a", v(&[(3, 1)])), entry("b", v(&[(3, 1)]))],
    ));
    q.join(batch(2), entry("b", v(&[(3, 1), (4, 1)])));
    q.hold(item(3, vec![entry("c", v(&[(4, 1)]))]));
    assert!(q.deny(batch(3)));
    let rebuilt = Quarantine::from_rows(q.rows(), q.arrivals());
    assert_eq!(rebuilt, q);
    assert_eq!(
        rebuilt.matching(&entry("a", v(&[(2, 3), (3, 1)]))),
        Some(batch(2)),
        "item 2's version at a arrived first"
    );
    assert_eq!(rebuilt.denied().len(), 1);
}

fn paths_of(item: &HeldItem) -> Vec<RelPath> {
    (0..item.entries.len())
        .map(|i| item.entries.key_at(i).clone())
        .collect()
}

#[test]
fn differences_are_named_by_part() {
    let mut a = Quarantine::default();
    let b = Quarantine::default();
    assert_eq!(a.first_difference(&b), None);
    a.hold(item(1, vec![entry("a", v(&[(2, 3)]))]));
    assert_eq!(a.first_difference(&b), Some("quarantine.items"));
    a.release(batch(1));
    assert_eq!(a.first_difference(&b), Some("quarantine.arrivals"));
    let mut c = Quarantine::default();
    c.hold(item(1, vec![entry("a", v(&[(2, 3)]))]));
    let mut d = c.clone();
    d.join(batch(1), entry("a", v(&[(3, 3)])));
    assert_eq!(c.first_difference(&d), Some("quarantine.versions"));
    c.deny(batch(1));
    let mut e = c.clone();
    e.forget_denied();
    assert_eq!(c.first_difference(&e), Some("quarantine.denied"));
}
