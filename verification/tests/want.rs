use delocal_engine::batch::{ApplyItem, ApplyMode};
use delocal_engine::entry::{ContentHash, Entry, Kind};
use delocal_engine::id::{BatchId, HostName, NodeId};
use delocal_engine::ordmap::OrdMap;
use delocal_engine::path::RelPath;
use delocal_engine::rules::Rules;
use delocal_engine::time::Timestamp;
use delocal_engine::version::Version;
use delocal_engine::want::{FetchReport, Tier, WantList, WantState, WantStep};

fn node(i: u8) -> NodeId {
    let mut b = [0u8; 16];
    b[0] = i;
    NodeId::from_bytes(b)
}

fn bid(i: u8) -> BatchId {
    let mut b = [0u8; 16];
    b[15] = i;
    BatchId::from_bytes(b)
}

fn p(s: &str) -> RelPath {
    RelPath::new(s).unwrap()
}

fn t(secs: i64) -> Timestamp {
    Timestamp::from_unix_nanos(secs * 1_000_000_000)
}

fn entry(path: &str, kind: Kind, size: u64, by: u8, deleted: bool) -> Entry {
    let mut h = [0u8; 32];
    h[0] = 1;
    Entry {
        path: p(path),
        kind,
        size,
        mtime_ns: 0,
        stamp: 0,
        executable: false,
        hash: if kind == Kind::Dir || deleted {
            ContentHash::empty()
        } else {
            ContentHash::from_bytes(h)
        },
        prev_hash: ContentHash::empty(),
        version: Version::empty().incremented(node(by)),
        deleted,
        modified_by: node(by),
        author_host: HostName::new("h").unwrap(),
    }
}

fn item(e: Entry, mode: ApplyMode) -> ApplyItem {
    ApplyItem::Apply {
        entry: e,
        mode,
        conflict: None,
    }
}

fn list_with(paths: &[(&str, Kind, u64, ApplyMode, bool)]) -> WantList {
    let mut l = WantList::default();
    for (path, kind, size, mode, deleted) in paths {
        assert!(
            l.insert(
                item(entry(path, *kind, *size, 2, *deleted), *mode),
                bid(1),
                node(2),
                1,
            )
            .is_none()
        );
    }
    l.drain_changes();
    l
}

fn peers(list: &[(u8, Tier)]) -> OrdMap<NodeId, Tier> {
    let mut out = OrdMap::new();
    for (n, t) in list {
        out.insert(node(*n), *t);
    }
    out
}

#[test]
fn tiers_order_best_first_and_apply_size_limits() {
    assert!(Tier::Lan < Tier::Direct && Tier::Direct < Tier::Relay);
    let r = Rules::default();
    assert!(Tier::Lan.allows(&r, u64::MAX));
    assert!(Tier::Direct.allows(&r, r.direct_limit));
    assert!(!Tier::Direct.allows(&r, r.direct_limit + 1));
    assert!(!Tier::Relay.allows(&r, r.relay_limit + 1));
}

#[test]
fn a_source_that_was_not_available_is_a_source_again_when_it_announces() {
    // Only node 2 (the batch source) announced the version.
    let mut l = list_with(&[("f", Kind::File, 10, ApplyMode::Fetch, false)]);
    let version = entry("f", Kind::File, 10, 2, false).version;
    let peers = peers(&[(2, Tier::Direct), (3, Tier::Direct)]);
    let steps = l.dispatch(t(0), &Rules::default(), &peers);
    assert!(matches!(&steps[0], WantStep::Fetch { from, .. } if *from == node(2)));
    l.fetched(&p("f"), &version, FetchReport::NotAvailable);
    assert!(l.dispatch(t(1), &Rules::default(), &peers).is_empty());
    assert_eq!(l.get(&p("f")).unwrap().state, WantState::NoSource);
    assert!(
        l.get(&p("f")).unwrap().excluded.is_empty(),
        "not available is not a mismatch"
    );
    // Node 2 announces the version again (it has merged to it): asked again.
    l.note_announced(&p("f"), &version, node(2));
    let steps = l.dispatch(t(2), &Rules::default(), &peers);
    assert!(
        matches!(&steps[0], WantStep::Fetch { from, .. } if *from == node(2)),
        "{steps:?}"
    );
    // A mismatch, by contrast, sticks.
    l.fetched(&p("f"), &version, FetchReport::HashMismatch);
    l.note_announced(&p("f"), &version, node(2));
    assert!(l.dispatch(t(3), &Rules::default(), &peers).is_empty());
    assert_eq!(l.get(&p("f")).unwrap().state, WantState::NoSource);
}

#[test]
fn selection_prefers_tier_then_node_and_skips_excluded() {
    let mut l = list_with(&[("f", Kind::File, 10, ApplyMode::Fetch, false)]);
    l.note_announced(
        &p("f"),
        &entry("f", Kind::File, 10, 2, false).version,
        node(3),
    );
    l.note_announced(
        &p("f"),
        &entry("f", Kind::File, 10, 2, false).version,
        node(4),
    );
    let steps = l.dispatch(
        t(0),
        &Rules::default(),
        &peers(&[(2, Tier::Relay), (3, Tier::Direct), (4, Tier::Direct)]),
    );
    assert_eq!(
        steps,
        [WantStep::Fetch {
            path: p("f"),
            version: entry("f", Kind::File, 10, 2, false).version,
            from: node(3)
        }],
        "direct beats relay, node 3 beats node 4"
    );
    assert!(
        matches!(l.get(&p("f")).unwrap().state, WantState::Fetching { from, .. } if from == node(3))
    );
    // NotAvailable from 3: 4 is next; a mismatch from 4 leaves 2; a second mismatch gives up.
    l.fetched(
        &p("f"),
        &entry("f", Kind::File, 10, 2, false).version,
        FetchReport::NotAvailable,
    );
    let steps = l.dispatch(
        t(1),
        &Rules::default(),
        &peers(&[(2, Tier::Relay), (3, Tier::Direct), (4, Tier::Direct)]),
    );
    assert!(matches!(&steps[0], WantStep::Fetch { from, .. } if *from == node(4)));
    l.fetched(
        &p("f"),
        &entry("f", Kind::File, 10, 2, false).version,
        FetchReport::HashMismatch,
    );
    let steps = l.dispatch(
        t(2),
        &Rules::default(),
        &peers(&[(2, Tier::Relay), (3, Tier::Direct), (4, Tier::Direct)]),
    );
    assert!(matches!(&steps[0], WantStep::Fetch { from, .. } if *from == node(2)));
    l.fetched(
        &p("f"),
        &entry("f", Kind::File, 10, 2, false).version,
        FetchReport::HashMismatch,
    );
    assert_eq!(l.get(&p("f")).unwrap().state, WantState::GaveUp);
    assert!(!l.in_flight(&p("f")), "given up is observable");
    assert!(
        l.dispatch(t(3), &Rules::default(), &peers(&[(2, Tier::Lan)]))
            .is_empty()
    );
}

#[test]
fn deferral_names_the_tier_that_would_do_and_lifts_on_upgrade() {
    let r = Rules::default();
    let big = r.relay_limit + 1;
    let mut l = list_with(&[("big", Kind::File, big, ApplyMode::Fetch, false)]);
    assert!(l.dispatch(t(0), &r, &peers(&[(2, Tier::Relay)])).is_empty());
    assert_eq!(
        l.get(&p("big")).unwrap().state,
        WantState::Deferred { need: Tier::Direct }
    );
    assert!(!l.in_flight(&p("big")));
    assert!(l.dispatch(t(0), &r, &peers(&[])).is_empty());
    assert_eq!(l.get(&p("big")).unwrap().state, WantState::NoSource);
    let steps = l.dispatch(t(1), &r, &peers(&[(2, Tier::Direct)]));
    assert_eq!(steps.len(), 1);
    assert!(l.in_flight(&p("big")));
    let huge = r.direct_limit + 1;
    let mut l = list_with(&[("huge", Kind::File, huge, ApplyMode::Fetch, false)]);
    l.dispatch(t(0), &r, &peers(&[(2, Tier::Direct)]));
    assert_eq!(
        l.get(&p("huge")).unwrap().state,
        WantState::Deferred { need: Tier::Lan }
    );
}

#[test]
fn fetch_slots_are_limited_per_peer_and_per_folder() {
    let r = Rules {
        max_fetches_per_peer: 2,
        max_fetches_per_folder: 3,
        ..Rules::default()
    };
    let mut l = list_with(&[
        ("a", Kind::File, 1, ApplyMode::Fetch, false),
        ("b", Kind::File, 1, ApplyMode::Fetch, false),
        ("c", Kind::File, 1, ApplyMode::Fetch, false),
        ("d", Kind::File, 1, ApplyMode::Fetch, false),
        ("e", Kind::File, 1, ApplyMode::Fetch, false),
    ]);
    for path in ["a", "b", "c", "d", "e"] {
        l.note_announced(
            &p(path),
            &entry(path, Kind::File, 1, 2, false).version,
            node(3),
        );
    }
    let steps = l.dispatch(t(0), &r, &peers(&[(2, Tier::Lan), (3, Tier::Lan)]));
    assert_eq!(steps.len(), 3, "folder limit");
    let from: Vec<NodeId> = steps
        .iter()
        .map(|s| match s {
            WantStep::Fetch { from, .. } => *from,
            _ => unreachable!(),
        })
        .collect();
    assert_eq!(
        from,
        [node(2), node(2), node(3)],
        "two on node 2 (the smaller id), then node 3"
    );
    assert_eq!(l.fetching(), 3);
    assert_eq!(
        l.get(&p("d")).unwrap().state,
        WantState::Wanted,
        "no slot: stays wanted, no deadline"
    );
    // A fetch finishing frees a slot.
    l.fetched(
        &p("a"),
        &entry("a", Kind::File, 1, 2, false).version,
        FetchReport::Done,
    );
    let steps = l.dispatch(t(1), &r, &peers(&[(2, Tier::Lan), (3, Tier::Lan)]));
    assert_eq!(steps.len(), 2, "a commits and one more fetch starts");
    assert!(matches!(steps[0], WantStep::Fetch { .. }));
    assert!(matches!(&steps[1], WantStep::Commit(w) if w.path() == &p("a")));
    assert_eq!(l.fetching(), 3);
}

#[test]
fn ordering_gate_holds_children_and_directory_deletes() {
    let mut l = list_with(&[
        ("d/inner", Kind::File, 1, ApplyMode::Fetch, false),
        ("d", Kind::Dir, 0, ApplyMode::Direct, false),
        ("old/x", Kind::File, 0, ApplyMode::Direct, true),
        ("old", Kind::Dir, 0, ApplyMode::Direct, true),
    ]);
    l.fetched(
        &p("d/inner"),
        &entry("d/inner", Kind::File, 1, 2, false).version,
        FetchReport::Done,
    );
    let steps = l.dispatch(t(0), &Rules::default(), &peers(&[(2, Tier::Lan)]));
    let committed: Vec<&str> = steps
        .iter()
        .filter_map(|s| match s {
            WantStep::Commit(w) => Some(w.path().as_str()),
            _ => None,
        })
        .collect();
    assert_eq!(
        committed,
        ["d", "old/x"],
        "the directory first, the child delete first"
    );
    assert_eq!(l.get(&p("d/inner")).unwrap().state, WantState::Blocked);
    assert_eq!(l.get(&p("old")).unwrap().state, WantState::Blocked);
    assert!(l.in_flight(&p("d/inner")));
    // Once the parent and the child delete commit, the rest follows.
    l.remove(&p("d"));
    l.remove(&p("old/x"));
    let steps = l.dispatch(t(1), &Rules::default(), &peers(&[(2, Tier::Lan)]));
    let committed: Vec<&str> = steps
        .iter()
        .filter_map(|s| match s {
            WantStep::Commit(w) => Some(w.path().as_str()),
            _ => None,
        })
        .collect();
    assert_eq!(committed, ["d/inner", "old"]);
}

#[test]
fn deadlines_expire_and_progress_extends_them() {
    let mut l = list_with(&[("f", Kind::File, 1, ApplyMode::Fetch, false)]);
    let v = entry("f", Kind::File, 1, 2, false).version;
    l.dispatch(t(0), &Rules::default(), &peers(&[(2, Tier::Lan)]));
    assert_eq!(l.next_deadline(), Some(t(60)));
    l.progress(t(50), &p("f"), &v);
    assert_eq!(l.next_deadline(), Some(t(110)));
    assert!(l.expire(t(109)).is_empty());
    assert_eq!(l.expire(t(110)), vec![p("f")]);
    assert_eq!(l.get(&p("f")).unwrap().state, WantState::Wanted);
    assert!(
        l.get(&p("f")).unwrap().excluded.is_empty(),
        "a stall does not exclude the source"
    );
    // A late Ok is still taken.
    l.fetched(&p("f"), &v, FetchReport::Done);
    assert!(l.get(&p("f")).unwrap().fetched);
    let steps = l.dispatch(t(111), &Rules::default(), &peers(&[(2, Tier::Lan)]));
    assert!(matches!(&steps[0], WantStep::Commit(_)));
    assert_eq!(l.next_deadline(), Some(t(141)));
}

#[test]
fn insert_merges_sources_replaces_on_dominate_and_refuses_otherwise() {
    let mut l = WantList::default();
    let e = entry("f", Kind::File, 1, 2, false);
    assert!(
        l.insert(item(e.clone(), ApplyMode::Fetch), bid(1), node(2), 1)
            .is_none()
    );
    assert_eq!(l.get(&p("f")).unwrap().sources.to_vec(), [node(2)]);
    assert!(
        l.insert(item(e.clone(), ApplyMode::Fetch), bid(2), node(3), 1)
            .is_none()
    );
    assert_eq!(
        l.get(&p("f")).unwrap().sources.len(),
        2,
        "same version: another source"
    );
    let mut newer = e.clone();
    newer.version = e.version.incremented(node(2));
    assert!(
        l.insert(item(newer.clone(), ApplyMode::Fetch), bid(3), node(2), 2)
            .is_none()
    );
    assert_eq!(
        l.get(&p("f")).unwrap().version(),
        &newer.version,
        "dominating: replaced"
    );
    assert_eq!(l.get(&p("f")).unwrap().sources.len(), 1);
    let mut other = e.clone();
    other.version = Version::empty().incremented(node(5));
    assert!(
        l.insert(item(other, ApplyMode::Fetch), bid(4), node(5), 1)
            .is_some(),
        "concurrent: refused"
    );
    let changes = l.drain_changes();
    assert_eq!(changes.len(), 1);
    assert!(changes[0].1.is_some());
    l.remove(&p("f"));
    assert_eq!(l.drain_changes(), vec![(p("f"), None)]);
}

#[test]
fn restore_resets_transient_states() {
    let mut l = list_with(&[("f", Kind::File, 1, ApplyMode::Fetch, false)]);
    l.dispatch(t(0), &Rules::default(), &peers(&[(2, Tier::Lan)]));
    let w = l.get(&p("f")).unwrap().clone();
    assert!(matches!(w.state, WantState::Fetching { .. }));
    let mut fresh = WantList::default();
    fresh.restore(w);
    assert_eq!(fresh.get(&p("f")).unwrap().state, WantState::Wanted);
}

#[test]
fn index_only_wants_are_adopted_without_the_host() {
    let mut l = list_with(&[("f", Kind::Dir, 0, ApplyMode::IndexOnly, false)]);
    let steps = l.dispatch(t(0), &Rules::default(), &peers(&[]));
    assert_eq!(steps.len(), 1);
    assert!(matches!(&steps[0], WantStep::Adopt(w) if w.path() == &p("f") && w.is_dir_create()));
    assert!(l.is_empty());
    assert_eq!(l.next_deadline(), None);
}

#[test]
fn a_peer_that_goes_away_ends_its_fetches() {
    let mut l = list_with(&[
        ("a", Kind::File, 1, ApplyMode::Fetch, false),
        ("b", Kind::File, 1, ApplyMode::Fetch, false),
    ]);
    l.dispatch(t(0), &Rules::default(), &peers(&[(2, Tier::Lan)]));
    assert_eq!(l.fetching(), 2);
    l.peer_gone(node(9));
    assert_eq!(l.fetching(), 2);
    l.peer_gone(node(2));
    assert_eq!(l.fetching(), 0);
    assert!(l.iter().iter().all(|w| w.state == WantState::Wanted && w.needs_fetch()));
    assert_eq!(l.len(), 2);
}

#[test]
fn a_restart_settles_every_transient_state() {
    let mut l = list_with(&[
        ("a", Kind::File, 1, ApplyMode::Fetch, false),
        ("d", Kind::Dir, 0, ApplyMode::Direct, false),
        ("d/x", Kind::File, 0, ApplyMode::Direct, false),
    ]);
    l.dispatch(t(0), &Rules::default(), &peers(&[(2, Tier::Lan)]));
    assert!(matches!(l.get(&p("a")).unwrap().state, WantState::Fetching { .. }));
    assert!(matches!(l.get(&p("d")).unwrap().state, WantState::Committing { .. }));
    assert_eq!(l.get(&p("d/x")).unwrap().state, WantState::Blocked);
    l.drain_changes();
    l.restarted();
    assert!(l.iter().iter().all(|w| w.state == WantState::Wanted));
    assert_eq!(l.drain_changes().len(), 3);
    assert!(!l.restoring(&p("a")));
    assert!(!l.get(&p("a")).unwrap().is_delete());
    assert!(l.get(&p("a")).unwrap().in_flight());
}

#[test]
fn a_member_that_does_not_have_it_is_remembered_until_it_announces() {
    let mut l = list_with(&[("f", Kind::File, 10, ApplyMode::Fetch, false)]);
    let v = entry("f", Kind::File, 10, 2, false).version;
    l.dispatch(t(0), &Rules::default(), &peers(&[(2, Tier::Lan)]));
    let w = l.fetched(&p("f"), &v, FetchReport::NotAvailable).unwrap();
    assert_eq!(w.answered.to_vec(), [node(2)]);
    assert!(w.sources.is_empty());
    l.note_announced(&p("f"), &v, node(2));
    let w = l.get(&p("f")).unwrap();
    assert!(w.answered.is_empty());
    assert_eq!(w.sources.to_vec(), [node(2)]);
    assert_eq!(l.fetched(&p("f"), &v.incremented(node(7)), FetchReport::Done), None);
}
