use delocal_engine::batch::classify;
use delocal_engine::engine::{Action, Engine, Event, NodeConfig};
use delocal_engine::entry::{ContentHash, Entry, Kind, Observed};
use delocal_engine::folder::{FolderState, FolderStatus, ScanState};
use delocal_engine::id::{BatchId, FolderId, HostName, NodeId};
use delocal_engine::index::Index;
use delocal_engine::path::RelPath;
use delocal_engine::rules::Rules;
use delocal_engine::time::{NANOS_PER_SECOND, Timestamp};

fn node(i: u8) -> NodeId {
    let mut b = [0u8; 16];
    b[0] = i;
    NodeId::from_bytes(b)
}

fn hash(i: u8) -> ContentHash {
    let mut b = [0u8; 32];
    b[0] = i;
    b[31] = 1;
    ContentHash::from_bytes(b)
}

fn batch(i: u8) -> BatchId {
    let mut b = [0u8; 16];
    b[15] = i;
    BatchId::from_bytes(b)
}

fn p(s: &str) -> RelPath {
    RelPath::new(s).unwrap()
}

fn at(secs: i64) -> Timestamp {
    Timestamp::from_unix_nanos(secs * NANOS_PER_SECOND)
}

fn file(h: u8, mtime_ns: i64) -> Observed {
    Observed {
        kind: Kind::File,
        size: 10,
        mtime_ns,
        executable: false,
        hash: hash(h),
    }
}

fn index(i: u8) -> Index {
    Index::new(node(i), HostName::new("h").unwrap())
}

/// Takes a version in as a receiver does, and gives the record's entry back.
fn absorb(idx: &mut Index, incoming: &Entry) -> Entry {
    if let Some(item) = classify(idx, incoming).item {
        idx.adopt(item.incoming().clone()).unwrap();
    }
    idx.get(&incoming.path).unwrap().entry.clone()
}

/// Versions of one path, made by three machines: each its own, then one on top of another's.
fn versions() -> Vec<Entry> {
    let mut a = index(1);
    let mut b = index(2);
    let mut c = index(3);
    let x = a.observe(p("x"), file(1, 10)).unwrap().record.entry;
    let y = b.observe(p("x"), file(2, 30)).unwrap().record.entry;
    let z = c.observe(p("x"), file(3, 20)).unwrap().record.entry;
    absorb(&mut a, &z);
    let w = a.observe(p("x"), file(4, 5)).unwrap().record.entry;
    let gone = b.observe_absent(&p("x"), 40).unwrap().record.entry;
    vec![x, y, z, w, gone]
}

/// Every order of the first `n` numbers.
fn orders(n: usize) -> Vec<Vec<usize>> {
    if n == 0 {
        return vec![Vec::new()];
    }
    let mut out = Vec::new();
    for shorter in orders(n - 1) {
        for place in 0..n {
            let mut order = shorter.clone();
            order.insert(place, n - 1);
            out.push(order);
        }
    }
    out
}

#[test]
fn the_record_does_not_depend_on_the_order_of_arrival() {
    let vs = versions();
    let mut results: Vec<Entry> = Vec::new();
    for order in orders(5) {
        let mut idx = index(9);
        for o in order {
            absorb(&mut idx, &vs[o]);
        }
        results.push(idx.get(&p("x")).unwrap().entry.clone());
    }
    assert_eq!(results.len(), 120);
    for r in &results {
        assert_eq!(r, &results[0]);
    }
    for v in &vs {
        assert!(results[0].version.dominates_or_equals(&v.version));
    }
}

#[test]
fn both_sides_of_a_conflict_hold_the_same_entry() {
    let mut a = index(1);
    let mut b = index(2);
    let x = a.observe(p("x"), file(1, 10)).unwrap().record.entry;
    let y = b.observe(p("x"), file(2, 30)).unwrap().record.entry;
    let on_a = absorb(&mut a, &y);
    let on_b = absorb(&mut b, &x);
    assert_eq!(on_a, on_b);
    assert_eq!(on_a.hash, hash(2));
    assert_eq!(on_a.version, x.version.merge(&y.version));
}

fn folder_id(i: u8) -> FolderId {
    FolderId::from_bytes([i; 16])
}

fn engine() -> Engine {
    Engine::new(NodeConfig {
        node_id: node(1),
        author_host: HostName::new("alpha").unwrap(),
    })
}

fn join(e: &mut Engine, i: u8) -> Vec<Action> {
    e.handle(
        at(0),
        Event::FolderJoined {
            folder: folder_id(i),
            rules: Rules::default(),
            members: vec![node(1), node(2)],
        },
    )
}

fn scan(e: &mut Engine, secs: i64, i: u8, path: &str, state: ScanState) -> Vec<Action> {
    e.handle(
        at(secs),
        Event::Scanned { folder: folder_id(i), path: p(path), state },
    )
}

#[test]
fn an_event_about_one_folder_leaves_the_other_alone() {
    let mut e = engine();
    join(&mut e, 1);
    join(&mut e, 2);
    scan(&mut e, 1, 2, "kept", ScanState::Observed(file(1, 1)));
    let before = e.folder(folder_id(2)).unwrap().clone();
    scan(&mut e, 2, 1, "new", ScanState::Observed(file(2, 2)));
    assert_eq!(e.folder(folder_id(2)).unwrap(), &before);
    assert!(e.folder(folder_id(1)).unwrap().index().get(&p("new")).is_some());
}

#[test]
fn an_event_about_an_unknown_folder_changes_no_folder() {
    let mut e = engine();
    join(&mut e, 1);
    let out = scan(&mut e, 1, 9, "new", ScanState::Observed(file(2, 2)));
    assert_eq!(
        out,
        vec![Action::StatusChanged { folder: folder_id(9), status: FolderStatus::UnknownFolder }]
    );
    assert_eq!(e.folders().len(), 1);
    assert!(e.folder(folder_id(1)).unwrap().index().get(&p("new")).is_none());
}

#[test]
fn a_window_that_is_written_to_again_and_again_still_closes() {
    let mut e = engine();
    join(&mut e, 1);
    let mut due = at(0);
    for s in 0..20 {
        let out = scan(&mut e, s, 1, "busy", ScanState::Observed(file(s as u8 + 1, s)));
        for a in out {
            if let Action::WakeAt(t) = a {
                due = t;
            }
        }
        assert_eq!(Some(due), e.folder(folder_id(1)).unwrap().due());
    }
    assert_eq!(due, at(10));
}

fn paused_engine() -> Engine {
    let mut e = Engine::new(NodeConfig {
        node_id: node(1),
        author_host: HostName::new("alpha").unwrap(),
    });
    e.handle(
        at(0),
        Event::FolderJoined {
            folder: folder_id(1),
            rules: Rules { hold_count: 1, hold_pct: 0, ..Rules::default() },
            members: vec![node(1), node(2)],
        },
    );
    for i in 0..4u8 {
        scan(&mut e, 1, 1, &format!("f{i}"), ScanState::Observed(file(i + 1, 1)));
    }
    e.handle(at(20), Event::Tick { fresh_batch_id: batch(1) });
    scan(&mut e, 21, 1, "f0", ScanState::Absent);
    scan(&mut e, 21, 1, "f1", ScanState::Observed(file(9, 9)));
    scan(&mut e, 21, 1, "new", ScanState::Observed(file(8, 8)));
    e.handle(at(40), Event::Tick { fresh_batch_id: batch(2) });
    assert_eq!(e.folder(folder_id(1)).unwrap().paused().unwrap().batch, batch(2));
    e
}

#[test]
fn a_pause_outlives_everything_but_its_decision() {
    let mut e = paused_engine();
    let announced = e.folder(folder_id(1)).unwrap().index().announced_seq();
    let events = vec![
        Event::ScanStarted { folder: folder_id(1) },
        Event::ScanFinished { folder: folder_id(1) },
        Event::RulesChanged { folder: folder_id(1), rules: Rules::default() },
        Event::Deny { folder: folder_id(1), batch: batch(2) },
        Event::Approve { folder: folder_id(1), batch: batch(7) },
        Event::Tick { fresh_batch_id: batch(3) },
        Event::PeerDisconnected { peer: node(2) },
    ];
    for (i, event) in events.into_iter().enumerate() {
        e.handle(at(50 + 20 * i as i64), event);
        let f = e.folder(folder_id(1)).unwrap();
        assert_eq!(f.paused().unwrap().batch, batch(2));
        assert_eq!(f.index().announced_seq(), announced);
    }
    e.handle(at(500), Event::Approve { folder: folder_id(1), batch: batch(2) });
    assert!(e.folder(folder_id(1)).unwrap().paused().is_none());
}

#[test]
fn a_revert_puts_back_what_peers_saw_and_wants_it() {
    let mut e = paused_engine();
    e.handle(at(50), Event::Revert { folder: folder_id(1) });
    let f: &FolderState = e.folder(folder_id(1)).unwrap();
    assert!(f.paused().is_none());
    assert_eq!(f.index().pending_count(), 0);
    assert!(f.index().get(&p("new")).is_none());
    assert_eq!(f.index().get(&p("f0")).unwrap().entry.hash, hash(1));
    assert_eq!(f.index().get(&p("f1")).unwrap().entry.hash, hash(2));
    assert!(f.wants().get(&p("f0")).is_some());
    assert!(f.wants().get(&p("f1")).is_some());
    assert!(f.wants().get(&p("f2")).is_none());
}

#[test]
fn what_is_printed_parses_back() {
    let id = NodeId::from_bytes([0, 1, 2, 3, 16, 17, 128, 255, 0, 1, 2, 3, 16, 17, 128, 254]);
    assert_eq!(id.to_string(), "00010203101180ff00010203101180fe");
    assert_eq!(NodeId::parse(&id.to_string()), Ok(id));
    assert_eq!(ContentHash::parse(&hash(200).to_string()), Ok(hash(200)));
}
