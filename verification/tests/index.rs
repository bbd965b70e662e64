use delocal_engine::entry::{ContentHash, Entry, Kind, Observed};
use delocal_engine::id::{HostName, NodeId};
use delocal_engine::index::{ChangeKind, Index, IndexRecord, Watermark};
use delocal_engine::path::RelPath;
use delocal_engine::version::{Relation, Version};
use std::collections::BTreeMap;

fn node(i: u8) -> NodeId {
    let mut b = [0u8; 16];
    b[0] = i;
    NodeId::from_bytes(b)
}

/// Never `EMPTY`, whatever `i` is: real content always has a real hash.
fn hash(i: u8) -> ContentHash {
    let mut b = [0u8; 32];
    b[0] = i;
    b[31] = 1;
    ContentHash::from_bytes(b)
}

fn p(s: &str) -> RelPath {
    RelPath::new(s).unwrap()
}

fn file(h: u8, mtime_ns: i64) -> Observed {
    Observed {
        kind: Kind::File,
        size: 10,
        mtime_ns,
        executable: false,
        hash: hash(h),
    }
}

fn index() -> Index {
    Index::new(node(1), HostName::new("laptop").unwrap())
}

#[test]
fn first_observation_is_an_add_with_version_one_and_empty_prev_hash() {
    let mut idx = index();
    let change = idx.observe(p("a.txt"), file(1, 100)).unwrap();
    assert_eq!(change.kind, ChangeKind::Add);
    assert_eq!(change.record.seq, 1);
    assert_eq!(change.record.entry.version, idx.first_version());
    assert_eq!(change.record.entry.modified_by, node(1));
    assert_eq!(change.record.entry.author_host.as_str(), "laptop");
    assert_eq!(change.record.entry.prev_hash, ContentHash::empty());
    assert!(!change.record.entry.is_metadata_only());
    assert!(!change.record.entry.deleted);
    assert_eq!(idx.tracked_count(), 1);
    assert_eq!(idx.seq(), 1);
    assert_eq!(idx.pending_count(), 1);
}

#[test]
fn same_observation_is_not_a_change() {
    let mut idx = index();
    idx.observe(p("a.txt"), file(1, 100)).unwrap();
    assert_eq!(idx.observe(p("a.txt"), file(1, 100)), None);
    assert_eq!(idx.seq(), 1, "seq must not advance on a no-op");
}

#[test]
fn content_change_is_a_modify_that_dominates_with_prev_hash() {
    let mut idx = index();
    let v1 = idx
        .observe(p("a.txt"), file(1, 100))
        .unwrap()
        .record
        .entry
        .version;
    idx.mark_announced();
    let change = idx.observe(p("a.txt"), file(2, 200)).unwrap();
    assert_eq!(change.kind, ChangeKind::Modify);
    assert_eq!(change.record.seq, 2);
    assert_eq!(
        change.record.entry.version.compare(&v1),
        Relation::Dominates
    );
    assert_eq!(change.record.entry.version.counter(node(1)), 2);
    assert_eq!(change.record.entry.prev_hash, hash(1));
    assert!(!change.record.entry.is_metadata_only());
}

#[test]
fn touch_is_a_modify_with_hash_equal_to_prev_hash() {
    let mut idx = index();
    idx.observe(p("a.txt"), file(1, 100)).unwrap();
    idx.mark_announced();
    let change = idx.observe(p("a.txt"), file(1, 101)).unwrap();
    assert_eq!(change.kind, ChangeKind::Modify);
    assert_eq!(change.record.entry.hash, hash(1));
    assert_eq!(change.record.entry.prev_hash, hash(1));
    assert!(change.record.entry.is_metadata_only());
}

#[test]
fn changes_within_one_window_coalesce_to_one_step() {
    let mut idx = index();
    idx.observe(p("a.txt"), file(1, 100)).unwrap();
    idx.mark_announced();
    // Three edits before the batch goes out.
    let c2 = idx.observe(p("a.txt"), file(2, 200)).unwrap();
    let c3 = idx.observe(p("a.txt"), file(3, 300)).unwrap();
    let c4 = idx.observe(p("a.txt"), file(1, 400)).unwrap();
    for c in [&c2, &c3, &c4] {
        assert_eq!(
            c.record.entry.prev_hash,
            hash(1),
            "always the announced hash"
        );
        assert_eq!(c.kind, ChangeKind::Modify);
    }
    assert!(
        c4.record.entry.is_metadata_only(),
        "edited back to the announced content: peers see a touch"
    );
    assert_eq!(idx.pending_count(), 1);
    assert_eq!(idx.seq(), 4);
}

#[test]
fn add_then_modify_in_one_window_is_an_add() {
    let mut idx = index();
    idx.observe(p("n"), file(1, 1)).unwrap();
    let c = idx.observe(p("n"), file(2, 2)).unwrap();
    assert_eq!(c.kind, ChangeKind::Add);
    assert_eq!(c.record.entry.prev_hash, ContentHash::empty());
    assert_eq!(
        idx.pending().into_iter().map(|(_, k)| k).collect::<Vec<_>>(),
        [ChangeKind::Add]
    );
}

#[test]
fn add_then_delete_in_one_window_is_an_invisible_tombstone() {
    let mut idx = index();
    idx.observe(p("n"), file(1, 1)).unwrap();
    let c = idx.observe_absent(&p("n"), 2).unwrap();
    assert_eq!(c.kind, ChangeKind::Delete);
    assert!(c.record.entry.deleted);
    assert_eq!(c.record.entry.prev_hash, ContentHash::empty());
    assert!(c.record.entry.is_metadata_only(), "the brake will not count it");
}

#[test]
fn delete_then_recreate_in_one_window_is_a_modify() {
    let mut idx = index();
    idx.observe(p("a"), file(1, 1)).unwrap();
    idx.mark_announced();
    idx.observe_absent(&p("a"), 2).unwrap();
    let c = idx.observe(p("a"), file(2, 3)).unwrap();
    assert_eq!(c.kind, ChangeKind::Modify);
    assert_eq!(c.record.entry.prev_hash, hash(1));
    assert!(!c.record.entry.is_metadata_only());
    assert_eq!(c.record.entry.version.counter(node(1)), 3);
}

#[test]
fn delete_makes_a_tombstone_that_dominates() {
    let mut idx = index();
    let live = idx.observe(p("a.txt"), file(1, 100)).unwrap().record.entry;
    idx.mark_announced();
    let change = idx.observe_absent(&p("a.txt"), 500).unwrap();
    assert_eq!(change.kind, ChangeKind::Delete);
    let dead = &change.record.entry;
    assert!(dead.deleted);
    assert_eq!(dead.kind, Kind::File, "tombstone remembers the kind");
    assert_eq!(
        (dead.size, dead.hash, dead.executable, dead.mtime_ns),
        (0, ContentHash::empty(), false, 500)
    );
    assert_eq!(dead.prev_hash, hash(1));
    assert!(!dead.is_metadata_only(), "a deletion is a content change");
    assert!(dead.version.dominates(&live.version));
    assert_eq!(idx.tracked_count(), 0);
    assert_eq!(idx.len(), 1, "tombstones are kept");
    assert!(idx.live(&p("a.txt")).is_none());
    assert!(idx.get(&p("a.txt")).is_some());
}

#[test]
fn absent_unknown_or_already_deleted_is_not_a_change() {
    let mut idx = index();
    assert_eq!(idx.observe_absent(&p("nope"), 1), None);
    idx.observe(p("a.txt"), file(1, 100)).unwrap();
    idx.observe_absent(&p("a.txt"), 200).unwrap();
    assert_eq!(idx.observe_absent(&p("a.txt"), 300), None);
    assert_eq!(idx.seq(), 2);
}

#[test]
fn recreation_after_announced_delete_is_an_add_that_dominates_the_tombstone() {
    let mut idx = index();
    idx.observe(p("a.txt"), file(1, 100)).unwrap();
    let tomb = idx.observe_absent(&p("a.txt"), 200).unwrap().record.entry;
    idx.mark_announced();
    let change = idx.observe(p("a.txt"), file(3, 300)).unwrap();
    assert_eq!(change.kind, ChangeKind::Add, "adds do not count toward H1");
    assert_eq!(change.record.entry.prev_hash, ContentHash::empty());
    assert!(!change.record.entry.is_metadata_only());
    assert!(change.record.entry.version.dominates(&tomb.version));
    assert_eq!(change.record.entry.version.counter(node(1)), 3);
    assert_eq!(idx.tracked_count(), 1);
}

fn remote(path: &str, h: u8, version: Version) -> Entry {
    Entry {
        path: p(path),
        kind: Kind::File,
        size: 3,
        mtime_ns: 7,
        stamp: 7,
        executable: true,
        hash: hash(h),
        prev_hash: ContentHash::empty(),
        version,
        deleted: false,
        modified_by: node(2),
        author_host: HostName::new("desktop").unwrap(),
    }
}

#[test]
fn adopt_takes_a_remote_entry_as_is_with_a_new_seq() {
    let mut idx = index();
    idx.observe(p("a.txt"), file(1, 100)).unwrap();
    let entry = remote("b.txt", 9, Version::empty().incremented(node(2)));
    let record = idx.adopt(entry.clone()).unwrap();
    assert_eq!(record.entry, entry);
    assert_eq!(record.seq, 2);
    assert_eq!(idx.get(&p("b.txt")), Some(&record));
    assert_eq!(idx.pending_count(), 1, "adopting is not a local change");
    // A later local change to the adopted entry continues its vector and
    // replaces the remote hash, which peers have seen.
    let change = idx.observe(p("b.txt"), file(4, 8)).unwrap();
    assert_eq!(change.kind, ChangeKind::Modify);
    assert_eq!(change.record.entry.prev_hash, hash(9));
    assert_eq!(change.record.entry.version.counter(node(2)), 1);
    assert_eq!(change.record.entry.version.counter(node(1)), 1);
    assert!(change.record.entry.version.dominates(&entry.version));
}

#[test]
fn conflict_copy_is_a_local_add_with_the_losers_content_and_our_authorship() {
    let mut idx = index();
    let loser = remote("x.txt", 4, Version::empty().incremented(node(2)));
    let change = idx.record_conflict_copy(p("x.conflict-copy.txt"), &loser);
    assert_eq!(change.kind, ChangeKind::Add);
    let e = &change.record.entry;
    assert_eq!(e.path, p("x.conflict-copy.txt"));
    assert_eq!(
        (e.kind, e.size, e.mtime_ns, e.executable, e.hash),
        (
            loser.kind,
            loser.size,
            loser.mtime_ns,
            loser.executable,
            loser.hash
        )
    );
    assert_eq!(e.prev_hash, ContentHash::empty());
    assert_eq!(e.version, idx.first_version());
    assert_eq!(
        e.modified_by,
        node(1),
        "this machine, not the loser's author"
    );
    assert_eq!(e.author_host.as_str(), "laptop");
    assert!(!e.deleted);
    assert_eq!(
        idx.pending_kind(&p("x.conflict-copy.txt")),
        Some(ChangeKind::Add)
    );
}

#[test]
fn adopt_over_an_existing_record_needs_a_dominating_version() {
    let mut idx = index();
    let mine = idx
        .observe(p("a"), file(1, 1))
        .unwrap()
        .record
        .entry
        .version;
    let newer = remote("a", 5, mine.incremented(node(2)));
    idx.adopt(newer.clone());
    assert_eq!(idx.get(&p("a")).unwrap().entry, newer);
    assert_eq!(
        idx.pending_count(),
        0,
        "the one legitimate adopt over a pending path: a conflict's merged version M"
    );
    // Equal is allowed too (a re-commit of the same version).
    idx.adopt(newer);
}

#[test]
fn dir_observations_are_normalised() {
    let mut idx = index();
    let dir = Observed {
        kind: Kind::Dir,
        size: 4096,
        mtime_ns: 1,
        executable: true,
        hash: hash(1),
    };
    let e = idx.observe(p("d"), dir.clone()).unwrap().record.entry;
    assert_eq!((e.size, e.hash, e.executable), (0, ContentHash::empty(), false));
    // Reporting the un-normalised form again is still "unchanged".
    assert_eq!(idx.observe(p("d"), dir), None);
}

#[test]
fn a_child_under_an_announced_directory_does_not_touch_the_directory() {
    let mut idx = index();
    let dir = |mtime_ns| Observed {
        kind: Kind::Dir,
        size: 0,
        mtime_ns,
        executable: false,
        hash: ContentHash::empty(),
    };
    idx.observe(p("d"), dir(100)).unwrap();
    idx.mark_announced();
    // Creating d/child bumps the directory's mtime on disk; the host
    // reports the directory again with the new mtime.
    idx.observe(p("d/child"), file(1, 200)).unwrap();
    assert_eq!(idx.observe(p("d"), dir(200)), None);
    assert_eq!(idx.pending_kind(&p("d")), None);
    assert_eq!(idx.pending_count(), 1, "only the child is pending");
    assert_eq!(idx.get(&p("d")).unwrap().entry.mtime_ns, 0);
}

#[test]
fn tracked_count_excludes_directories_and_tombstones() {
    let mut idx = index();
    idx.observe(
        p("d"),
        Observed {
            kind: Kind::Dir,
            size: 0,
            mtime_ns: 0,
            executable: false,
            hash: ContentHash::empty(),
        },
    )
    .unwrap();
    idx.observe(p("d/a"), file(1, 1)).unwrap();
    idx.observe(p("d/b"), file(2, 1)).unwrap();
    assert_eq!(idx.tracked_count(), 2);
    idx.observe_absent(&p("d/b"), 5).unwrap();
    assert_eq!(idx.tracked_count(), 1);
    assert_eq!(idx.len(), 3);
}

#[test]
fn announced_tracked_is_the_count_at_the_last_announcement() {
    let mut idx = index();
    for i in 0..10 {
        idx.observe(p(&format!("f{i}")), file(1, 1)).unwrap();
    }
    assert_eq!(idx.announced_tracked(), 0, "nothing announced yet");
    idx.mark_announced();
    assert_eq!(idx.announced_tracked(), 10);
    for i in 0..8 {
        idx.observe_absent(&p(&format!("f{i}")), 5).unwrap();
    }
    assert_eq!(idx.tracked_count(), 2);
    assert_eq!(
        idx.announced_tracked(),
        10,
        "the denominator the brake needs"
    );
}

#[test]
fn bump_over_dominates_every_version_and_keeps_content() {
    let mut idx = index();
    idx.observe(p("a"), file(1, 1)).unwrap();
    idx.mark_announced();
    let mine = idx.get(&p("a")).unwrap().entry.clone();
    let q1 = Version::empty().incremented(node(2)).incremented(node(2));
    let q2: Version = Version::from_pairs(&vec![(node(3), 4)]);
    let c = idx.bump_over(&p("a"), &[q1.clone(), q2.clone()], None, 9);
    let e = &c.record.entry;
    assert!(e.version.dominates(&q1));
    assert!(e.version.dominates(&q2));
    assert!(e.version.dominates(&mine.version));
    assert_eq!(e.version.counter(node(1)), 2);
    assert_eq!(
        (e.hash, e.size, e.mtime_ns, e.kind),
        (mine.hash, mine.size, mine.mtime_ns, mine.kind)
    );
    assert!(e.is_metadata_only(), "content unchanged");
    assert_eq!(e.modified_by, node(1));
    assert_eq!(c.kind, ChangeKind::Modify);
    // No record: a tombstone that still dominates.
    let c = idx.bump_over(&p("never"), std::slice::from_ref(&q1), None, 77);
    let e = &c.record.entry;
    assert!(e.deleted);
    assert!(e.version.dominates(&q1));
    assert_eq!(e.mtime_ns, 77);
    assert!(e.is_metadata_only());
    assert_eq!(c.kind, ChangeKind::Delete);
}

#[test]
fn revert_pending_restores_announced_records_exactly_and_removes_new_ones() {
    let mut idx = index();
    idx.observe(p("keep"), file(1, 1)).unwrap();
    idx.observe(p("edit"), file(2, 2)).unwrap(); // seq 2
    idx.observe(p("gone"), file(3, 3)).unwrap(); // seq 3
    idx.mark_announced();
    let edit_before = idx.get(&p("edit")).unwrap().clone();
    let gone_before = idx.get(&p("gone")).unwrap().clone();
    idx.observe(p("edit"), file(4, 4)).unwrap();
    idx.observe(p("edit"), file(5, 5)).unwrap();
    idx.observe_absent(&p("gone"), 6).unwrap();
    idx.observe(p("new"), file(6, 6)).unwrap();
    idx.adopt(remote("adopted", 9, Version::empty().incremented(node(2))));
    let seq_before = idx.seq();
    assert_eq!(idx.pending_count(), 3);

    let reverted = idx.revert_pending();
    let paths: Vec<_> = reverted.iter().map(|r| r.path.as_str()).collect();
    assert_eq!(paths, ["edit", "gone", "new"]);
    assert_eq!(idx.get(&p("edit")), Some(&edit_before), "seq included");
    assert_eq!(idx.get(&p("gone")), Some(&gone_before));
    assert_eq!(idx.get(&p("new")), None, "peers never saw it");
    assert_eq!(reverted[2].restored, None);
    assert_eq!(reverted[2].current.as_ref().unwrap().hash, hash(6));
    assert!(reverted[1].current.as_ref().unwrap().deleted);
    assert_eq!(idx.pending_count(), 0);
    assert_eq!(idx.seq(), seq_before, "no new seq");
    let unannounced: Vec<_> = idx
        .unannounced()
        .iter()
        .map(|(r, _)| r.entry.path.as_str().to_owned())
        .collect();
    assert_eq!(
        unannounced,
        ["adopted"],
        "restored records are not re-announced"
    );
    assert_eq!(idx.get(&p("keep")).unwrap().entry.hash, hash(1));
}

#[test]
fn announced_since_uses_the_pending_sets_announced_records() {
    let mut idx = index();
    idx.observe(p("a"), file(1, 1)).unwrap(); // seq 1
    idx.observe(p("b"), file(2, 2)).unwrap(); // seq 2
    idx.observe(p("c"), file(3, 3)).unwrap(); // seq 3
    idx.mark_announced();
    let b_announced = idx.get(&p("b")).unwrap().clone();
    idx.observe_absent(&p("b"), 9).unwrap(); // seq 4, pending
    idx.observe(p("d"), file(4, 4)).unwrap(); // seq 5, pending, never announced
    let got: Vec<(&str, u64)> = idx
        .announced_since(0)
        .iter()
        .map(|r| (r.entry.path.as_str(), r.seq))
        .collect();
    assert_eq!(
        got,
        [("a", 1), ("b", 2), ("c", 3)],
        "b as announced, d not at all"
    );
    assert_eq!(idx.announced_since(0)[1], &b_announced);
    assert_eq!(idx.announced_since(2).len(), 1);
    assert!(idx.announced_since(3).is_empty());
}

#[test]
fn locate_prefers_the_path_then_any_live_holder_of_the_hash() {
    let mut idx = index();
    idx.observe(p("a"), file(1, 1));
    idx.observe(p("b"), file(1, 1));
    idx.observe(p("c"), file(2, 1));
    idx.observe(
        p("d"),
        Observed {
            kind: Kind::Dir,
            ..file(1, 1)
        }
        .normalised(),
    );
    fn at(idx: &Index, path: &str, h: u8) -> Vec<String> {
        idx.locate(&p(path), &hash(h))
            .into_iter()
            .map(|r| r.as_str().to_owned())
            .collect()
    }
    assert_eq!(at(&idx, "b", 1), ["b", "a"], "the requested path first");
    assert_eq!(at(&idx, "c", 1), ["a", "b"], "content elsewhere serves too");
    assert_eq!(at(&idx, "a", 2), ["c"]);
    assert_eq!(at(&idx, "a", 3), Vec::<String>::new(), "nobody has it");
    assert!(
        at(&idx, "d", 0).is_empty(),
        "a directory's hash serves nothing"
    );
    idx.observe_absent(&p("a"), 2);
    assert_eq!(at(&idx, "a", 1), ["b"], "a tombstone serves nothing");
}

#[test]
fn records_since_and_peer_seq() {
    let mut idx = index();
    idx.observe(p("a"), file(1, 1)).unwrap();
    idx.observe(p("b"), file(2, 2)).unwrap();
    idx.observe(p("a"), file(3, 3)).unwrap();
    let after_one: Vec<_> = idx
        .records_since(1)
        .into_iter()
        .map(|r| r.entry.path.as_str())
        .collect();
    assert_eq!(
        after_one,
        ["a", "b"],
        "a was rewritten at seq 3, b at seq 2"
    );
    assert_eq!(idx.records_since(3).len(), 0);
    assert_eq!(idx.peer_seq(node(2)), 0);
    idx.received_range(node(2), 0, 5);
    idx.received_range(node(2), 0, 3);
    assert_eq!(idx.peer_seq(node(2)), 5, "never moves backwards");
}

#[test]
fn the_watermark_waits_for_a_gap_to_fill() {
    let mut idx = index();
    idx.received_range(node(2), 0, 4);
    // Batches (7, 9] and (9, 12] arrive before (4, 7]: a gap.
    idx.received_range(node(2), 7, 9);
    idx.received_range(node(2), 9, 12);
    assert_eq!(idx.peer_seq(node(2)), 4, "acknowledged at the watermark");
    assert!(idx.peer_has_gap(node(2)));
    // Catch-up re-sends everything above the acknowledged 4.
    idx.received_range(node(2), 4, 7);
    assert_eq!(
        idx.peer_seq(node(2)),
        12,
        "the gap filled, the ranges absorbed"
    );
    assert!(!idx.peer_has_gap(node(2)));
    // A range entirely below the watermark is old news.
    idx.received_range(node(2), 2, 3);
    assert_eq!(idx.peer_seq(node(2)), 12);
}

#[test]
fn unannounced_is_in_seq_order_and_marks_adopted_records() {
    let mut idx = index();
    idx.observe(p("b"), file(1, 1)).unwrap(); // seq 1
    idx.observe(p("a"), file(2, 2)).unwrap(); // seq 2
    idx.mark_announced();
    assert_eq!(idx.announced_seq(), 2);
    assert!(idx.unannounced().is_empty());
    idx.observe(p("z"), file(3, 3)).unwrap(); // seq 3, local add
    idx.adopt(remote("m", 9, Version::empty().incremented(node(2)))); // seq 4
    idx.observe(p("b"), file(4, 4)).unwrap(); // seq 5, local modify
    let got: Vec<_> = idx
        .unannounced()
        .into_iter()
        .map(|(r, k)| (r.entry.path.as_str().to_owned(), r.seq, k))
        .collect();
    assert_eq!(
        got,
        [
            ("z".to_owned(), 3, Some(ChangeKind::Add)),
            ("m".to_owned(), 4, None),
            ("b".to_owned(), 5, Some(ChangeKind::Modify)),
        ]
    );
    assert_eq!(idx.pending_kind(&p("b")), Some(ChangeKind::Modify));
    assert_eq!(idx.pending_kind(&p("m")), None);
    idx.mark_announced();
    assert_eq!(idx.announced_seq(), 5);
    assert_eq!(idx.pending_count(), 0);
}

#[test]
fn adopt_of_a_concurrent_version_changes_nothing() {
    let mut idx = index();
    idx.observe(p("a"), file(1, 1)).unwrap();
    let before = idx.clone();
    let adopted = idx.adopt(remote("a", 5, Version::empty().incremented(node(2))));
    assert_eq!(adopted, None);
    assert_eq!(idx, before);
}

#[test]
fn stamps_rise_with_every_change() {
    let mut idx = index();
    let s = |idx: &Index| idx.get(&p("a")).unwrap().entry.stamp;
    idx.observe(p("a"), file(1, 100)).unwrap();
    assert_eq!(s(&idx), 100, "the edit's modification time");
    idx.observe(p("a"), file(1, 500)).unwrap();
    assert_eq!(s(&idx), 101, "a touch is no edit");
    idx.observe(p("a"), file(2, 50)).unwrap();
    assert_eq!(s(&idx), 102, "an edit with an older time still ranks above");
    idx.observe_absent(&p("a"), 9_000).unwrap();
    assert_eq!(s(&idx), 103, "a deletion keeps the date of the last edit");
    idx.observe(p("a"), file(3, 700)).unwrap();
    assert_eq!(s(&idx), 700);
    let over = Version::empty().incremented(node(2));
    idx.bump_over(&p("a"), &[over.clone()], Some(900), 1);
    assert_eq!(s(&idx), 901, "above what it is bumped over");
    let c = idx.bump_over(&p("b"), &[over], Some(30), 1);
    assert_eq!(c.record.entry.stamp, 31);
}

#[test]
fn content_that_exists_nowhere_is_deleted_without_being_counted() {
    let mut idx = index();
    idx.observe(p("a"), file(1, 1)).unwrap();
    idx.mark_announced();
    let c = idx.observe_absent_unrecoverable(&p("a"), 5).unwrap();
    assert_eq!(c.kind, ChangeKind::Delete);
    assert!(c.record.entry.deleted);
    assert_eq!(idx.unannounced()[0].1, None);
    assert_eq!(idx.pending_kind(&p("a")), Some(ChangeKind::Delete));
    assert_eq!(idx.observe_absent_unrecoverable(&p("a"), 6), None);
    idx.observe(p("a"), file(1, 9)).unwrap();
    assert_eq!(idx.unannounced()[0].1, Some(ChangeKind::Modify), "counted again");
}

#[test]
fn symlinks_and_directories_have_no_modification_time() {
    let mut idx = index();
    let link = |mtime_ns| Observed {
        kind: Kind::Symlink,
        size: 3,
        mtime_ns,
        executable: true,
        hash: hash(4),
    };
    let e = idx.observe(p("l"), link(5)).unwrap().record.entry;
    assert_eq!((e.mtime_ns, e.executable), (0, false));
    assert_eq!(idx.observe(p("l"), link(6)), None);
    assert_eq!(idx.records().len(), 1);
    assert_eq!(idx.live_records().len(), 1);
    assert_eq!(idx.pending_paths(), [p("l")]);
    assert!(idx.is_pending(&p("l")));
    assert!(!idx.is_empty());
    assert_eq!(idx.own(), node(1));
    assert_eq!(idx.live(&p("l")), idx.get(&p("l")));
}

#[test]
fn overlapping_ranges_are_covered_once() {
    let mut idx = index();
    idx.received_range(node(2), 10, 20);
    idx.received_range(node(2), 10, 15);
    idx.received_range(node(2), 12, 30);
    assert_eq!(idx.peer_seq(node(2)), 0);
    idx.received_range(node(2), 0, 10);
    assert_eq!(idx.peer_seq(node(2)), 30);
    assert!(!idx.peer_has_gap(node(2)));
}

/// A fixed run of numbers.
struct Gen(u64);

impl Gen {
    fn below(&mut self, n: u64) -> u64 {
        self.0 = self.0.wrapping_mul(6364136223846793005).wrapping_add(1442695040888963407);
        (self.0 >> 33) % n
    }

    fn flag(&mut self) -> bool {
        self.below(2) == 1
    }
}

#[derive(Clone, Debug)]
enum Step {
    See { path: u8, hash: u8, mtime: i64 },
    Gone { path: u8, at: i64 },
    /// A conflict copy landing at `path`, only if no live record is there.
    Copy { path: u8, hash: u8 },
    Announce,
}

fn step(g: &mut Gen) -> Step {
    match g.below(8) {
        0..=3 => Step::See {
            path: g.below(4) as u8,
            hash: g.below(3) as u8,
            mtime: g.below(4) as i64,
        },
        4..=5 => Step::Gone { path: g.below(4) as u8, at: g.below(4) as i64 },
        6 => Step::Copy { path: g.below(4) as u8, hash: g.below(3) as u8 },
        _ => Step::Announce,
    }
}

fn path_of(i: u8) -> RelPath {
    p(&format!("p{i}"))
}

#[test]
fn local_changes_are_monotone_and_prev_hash_tracks_announced() {
    for run in 0..100u64 {
        let mut g = Gen(run);
        let mut idx = index();
        // What peers have seen: hash and liveness of the last announced record per path.
        let mut announced: BTreeMap<RelPath, (ContentHash, bool)> = BTreeMap::new();
        let mut changes = 0u64;
        for _ in 0..1 + run % 49 {
            let s = step(&mut g);
            let path = match &s {
                Step::See { path, .. } | Step::Gone { path, .. } | Step::Copy { path, .. } => {
                    path_of(*path)
                }
                Step::Announce => {
                    for (record, _) in idx.pending() {
                        announced.insert(
                            record.entry.path.clone(),
                            (record.entry.hash, !record.entry.deleted),
                        );
                    }
                    idx.mark_announced();
                    assert_eq!(idx.pending_count(), 0);
                    continue;
                }
            };
            let before = idx.get(&path).cloned();
            let was_pending = idx.pending().iter().any(|(r, _)| r.entry.path == path);
            let seq_before = idx.seq();
            let change = match s {
                Step::See { hash, mtime, .. } => idx.observe(path.clone(), file(hash, mtime)),
                Step::Gone { at, .. } => idx.observe_absent(&path, at),
                Step::Copy { hash, .. } => {
                    if idx.live(&path).is_some() {
                        continue;
                    }
                    let loser = remote("loser", hash, Version::empty().incremented(node(2)));
                    Some(idx.record_conflict_copy(path.clone(), &loser))
                }
                Step::Announce => unreachable!(),
            };
            match change {
                None => assert_eq!(idx.seq(), seq_before),
                Some(c) => {
                    changes += 1;
                    assert_eq!(idx.seq(), seq_before + 1);
                    assert_eq!(c.record.seq, idx.seq());
                    assert_eq!(c.record.entry.modified_by, node(1));
                    assert_eq!(c.record.entry.path, path);
                    assert_eq!(
                        c.record.entry.prev_hash,
                        announced.get(&path).map_or(ContentHash::empty(), |(h, _)| *h)
                    );
                    match &before {
                        Some(b) => {
                            assert!(c.record.entry.version.dominates(&b.entry.version));
                            assert_eq!(
                                c.record.entry.version.counter(node(1)),
                                b.entry.version.counter(node(1)) + 1
                            );
                            if !was_pending {
                                assert_eq!(c.record.entry.prev_hash, b.entry.hash);
                            }
                        }
                        None => {
                            assert_eq!(c.kind, ChangeKind::Add);
                            assert_eq!(c.record.entry.version, idx.first_version());
                            assert_eq!(c.record.entry.prev_hash, ContentHash::empty());
                        }
                    }
                    assert_eq!(c.record.entry.deleted, c.kind == ChangeKind::Delete);
                    if c.record.entry.deleted {
                        assert_eq!(c.record.entry.hash, ContentHash::empty());
                    }
                    // The pending kind is the step from the announced state.
                    let announced_live = announced.get(&path).is_some_and(|(_, live)| *live);
                    let now_live = !c.record.entry.deleted;
                    let expected = match (announced_live, now_live) {
                        (false, true) => ChangeKind::Add,
                        (true, true) => ChangeKind::Modify,
                        (_, false) => ChangeKind::Delete,
                    };
                    assert_eq!(c.kind, expected);
                }
            }
        }
        assert_eq!(idx.seq(), changes);
        assert_eq!(idx.records_since(0).len(), idx.len());
        assert!(idx.tracked_count() <= idx.len());
        assert!(idx.pending_count() <= idx.len());
    }
}

#[test]
fn observations_are_idempotent() {
    for run in 0..100u64 {
        let mut g = Gen(run + 1000);
        let mut idx = index();
        let mut last: BTreeMap<RelPath, Option<Observed>> = BTreeMap::new();
        for _ in 0..1 + run % 19 {
            match step(&mut g) {
                Step::See { path, hash, mtime } => {
                    let path = path_of(path);
                    idx.observe(path.clone(), file(hash, mtime));
                    last.insert(path, Some(file(hash, mtime)));
                }
                Step::Gone { path, at } => {
                    let path = path_of(path);
                    idx.observe_absent(&path, at);
                    last.insert(path, None);
                }
                Step::Copy { path, hash } => {
                    let path = path_of(path);
                    if idx.live(&path).is_none() {
                        let loser = remote("loser", hash, Version::empty().incremented(node(2)));
                        let c = idx.record_conflict_copy(path.clone(), &loser);
                        last.insert(path, Some(c.record.entry.observed()));
                    }
                }
                Step::Announce => idx.mark_announced(),
            }
        }
        let seq = idx.seq();
        for (path, obs) in last {
            let change = match obs {
                Some(o) => idx.observe(path, o),
                None => idx.observe_absent(&path, 99),
            };
            assert_eq!(change, None);
        }
        assert_eq!(idx.seq(), seq);
    }
}

#[test]
fn an_index_built_from_its_parts_is_the_same_index() {
    let mut idx = index();
    idx.observe(p("a"), file(1, 1)).unwrap();
    idx.mark_announced();
    idx.observe(p("a"), file(2, 2)).unwrap();
    idx.adopt(remote("b", 5, Version::empty().incremented(node(2)))).unwrap();
    idx.received_range(node(2), 0, 4);
    idx.received_range(node(2), 7, 9);
    let parts = idx.clone().into_parts();
    assert_eq!(parts.seq, 3);
    assert_eq!(parts.announced_seq, 1);
    assert_eq!(parts.records.len(), 2);
    assert_eq!(parts.pending.len(), 1);
    let (contiguous, ranges) = parts.peer_seq.get(&node(2)).unwrap().clone().into_parts();
    assert_eq!(contiguous, 4);
    assert_eq!(ranges.get(&7), Some(&9));
    assert_eq!(
        &Watermark::from_parts(contiguous, ranges),
        parts.peer_seq.get(&node(2)).unwrap()
    );
    assert_eq!(Index::from_parts(parts), idx);
}

#[test]
fn catch_up_is_what_was_announced_whatever_changes_follow() {
    let mut idx = index();
    for i in 0..5u8 {
        idx.observe(path_of(i), file(i + 1, 1)).unwrap();
    }
    idx.mark_announced();
    let before: Vec<IndexRecord> = idx.announced_since(2).into_iter().cloned().collect();
    assert_eq!(before.iter().map(|r| r.seq).collect::<Vec<_>>(), [3, 4, 5]);
    idx.observe(path_of(2), file(9, 9)).unwrap();
    idx.observe(path_of(7), file(9, 9)).unwrap();
    idx.observe_absent(&path_of(3), 9).unwrap();
    idx.bump_over(&path_of(4), &[Version::empty().incremented(node(2))], None, 9);
    idx.record_conflict_copy(path_of(8), &before[0].entry);
    let after: Vec<IndexRecord> = idx.announced_since(2).into_iter().cloned().collect();
    assert_eq!(after, before);
    assert!(after.iter().all(|r| r.seq <= idx.announced_seq()));
}
