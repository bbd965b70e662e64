use delocal_engine::batch::{
    apply_set, classify, form, ApplyItem, ApplyMode, Batch, MAX_BATCH_ENTRIES, Summary,
};
use delocal_engine::conflict::{resolve, Side};
use delocal_engine::entry::{ContentHash, Entry, Kind, Observed};
use delocal_engine::id::{BatchId, FolderId, HostName, NodeId};
use delocal_engine::index::Index;
use delocal_engine::path::RelPath;
use delocal_engine::time::Timestamp;
use delocal_engine::version::{Relation, Version};
use std::collections::BTreeMap;

fn node(i: u8) -> NodeId {
    let mut b = [0u8; 16];
    b[0] = i;
    NodeId::from_bytes(b)
}

fn folder() -> FolderId {
    FolderId::from_bytes([7; 16])
}

fn batch_id(i: u8) -> BatchId {
    let mut b = [0u8; 16];
    b[15] = i;
    BatchId::from_bytes(b)
}

fn hash(i: u8) -> ContentHash {
    let mut b = [0u8; 32];
    b[0] = i;
    b[31] = 1;
    ContentHash::from_bytes(b)
}

fn p(s: &str) -> RelPath {
    RelPath::new(s).unwrap()
}

fn file(h: u8, mtime_ns: i64) -> Observed {
    Observed {
        kind: Kind::File,
        size: 10,
        mtime_ns,
        executable: false,
        hash: hash(h),
    }
}

fn dir() -> Observed {
    Observed {
        kind: Kind::Dir,
        size: 0,
        mtime_ns: 1,
        executable: false,
        hash: ContentHash::empty(),
    }
}

fn index(i: u8) -> Index {
    Index::new(node(i), HostName::new("h").unwrap())
}

fn now() -> Timestamp {
    Timestamp::from_unix_nanos(1_000)
}

fn entry(path: &str, h: u8, version: Version, by: u8) -> Entry {
    Entry {
        path: p(path),
        kind: Kind::File,
        size: 10,
        mtime_ns: 5,
        stamp: 5,
        executable: false,
        hash: hash(h),
        prev_hash: ContentHash::empty(),
        version,
        deleted: false,
        modified_by: node(by),
        author_host: HostName::new("h").unwrap(),
    }
}

fn batch_of(entries: Vec<Entry>, seq_high: u64) -> Batch {
    Batch {
        id: batch_id(1),
        folder: folder(),
        source: node(2),
        created_at: now(),
        seq_low: 0,
        seq_high,
        entries,
        summary: Summary::default(),
    }
}

#[test]
fn summary_classifies_per_section_8_1() {
    let mut idx = index(1);
    idx.observe(p("a"), file(1, 1)).unwrap();
    idx.observe(p("b"), file(2, 1)).unwrap();
    idx.observe(p("d"), dir()).unwrap();
    idx.mark_announced();
    idx.observe(p("a"), file(3, 2)).unwrap(); // real edit
    idx.observe(p("b"), file(2, 9)).unwrap(); // touch
    idx.observe_absent(&p("d"), 3).unwrap(); // dir delete: EMPTY -> EMPTY
    idx.observe(p("n"), file(4, 4)).unwrap(); // add
    idx.observe(p("m"), file(5, 4)).unwrap();
    idx.observe_absent(&p("m"), 5).unwrap(); // add then delete in window
    let mut s = Summary::default();
    for (r, k) in idx.unannounced() {
        s.count(&r.entry, k.unwrap());
    }
    assert_eq!(
        s,
        Summary {
            adds: 1,
            mods: 1,
            dels: 0,
            bytes: 20
        }
    );
    assert_eq!(s.destructive(), 1);
}

#[test]
fn summary_counts_a_real_delete() {
    let mut idx = index(1);
    idx.observe(p("a"), file(1, 1)).unwrap();
    idx.mark_announced();
    idx.observe_absent(&p("a"), 2).unwrap();
    let mut s = Summary::default();
    for (r, k) in idx.unannounced() {
        s.count(&r.entry, k.unwrap());
    }
    assert_eq!((s.dels, s.mods, s.adds, s.bytes), (1, 0, 0, 0));
}

#[test]
fn forms_nothing_from_nothing() {
    assert!(form(batch_id(1), folder(), node(1), now(), &Vec::new(), 0).is_empty());
}

#[test]
fn forms_one_batch_in_seq_order_counting_only_local_changes() {
    let mut idx = index(1);
    idx.observe(p("z"), file(1, 1)).unwrap(); // seq 1
    let adopted = entry("m", 9, Version::empty().incremented(node(2)), 2);
    idx.adopt(adopted.clone()); // seq 2
    idx.observe(p("a"), file(2, 2)).unwrap(); // seq 3
    let batches = form(batch_id(1), folder(), node(1), now(), &idx.unannounced(), 0);
    assert_eq!(batches.len(), 1);
    let b = &batches[0];
    assert_eq!(b.id, batch_id(1));
    assert_eq!(
        (b.folder, b.source, b.created_at),
        (folder(), node(1), now())
    );
    assert_eq!(b.seq_high, 3);
    let paths: Vec<_> = b.entries.iter().map(|e| e.path.as_str()).collect();
    assert_eq!(paths, ["z", "m", "a"], "seq order, not path order");
    assert_eq!(b.entries[1], adopted, "adopted record goes as it stands");
    assert_eq!(b.summary.adds, 2, "the adopted record is not counted");
    assert_eq!(b.summary.bytes, 20);
}

#[test]
fn splits_on_seq_boundaries_with_successor_ids() {
    let mut idx = index(1);
    for i in 0..(MAX_BATCH_ENTRIES + 5) {
        idx.observe(p(&format!("f{i:05}")), file(1, i as i64))
            .unwrap();
    }
    let batches = form(batch_id(1), folder(), node(1), now(), &idx.unannounced(), 0);
    assert_eq!(batches.len(), 2);
    assert_eq!(batches[0].id, batch_id(1));
    assert_eq!(batches[1].id, batch_id(1).successor(1));
    assert_eq!(batches[0].entries.len(), MAX_BATCH_ENTRIES);
    assert_eq!(batches[1].entries.len(), 5);
    assert_eq!(batches[0].seq_high, MAX_BATCH_ENTRIES as u64);
    assert_eq!(batches[1].seq_high, MAX_BATCH_ENTRIES as u64 + 5);
    assert_eq!(batches[0].seq_low, 0, "the caller's seq_low");
    assert_eq!(
        batches[1].seq_low, MAX_BATCH_ENTRIES as u64,
        "the second chunk starts where the first ended"
    );
    assert_eq!(batches[0].summary.adds, MAX_BATCH_ENTRIES as u64);
    assert_eq!(batches[1].summary.adds, 5);
}

#[test]
fn apply_set_classifies_each_relation() {
    let mut idx = index(1);
    let mine = idx.observe(p("same"), file(1, 1)).unwrap().record.entry;
    idx.observe(p("older"), file(2, 1)).unwrap();
    idx.observe(p("conflict"), file(3, 1)).unwrap();
    idx.observe(p("touched"), file(4, 1)).unwrap();
    idx.observe(p("gone"), file(5, 1)).unwrap();
    let v = |path: &str| idx.get(&p(path)).unwrap().entry.version.clone();
    let remote2 = |path: &str, h: u8, ver: Version| entry(path, h, ver, 2);
    let mut touched = remote2("touched", 4, v("touched").incremented(node(2)));
    touched.mtime_ns = 99;
    let mut gone = remote2("gone", 5, v("gone").incremented(node(2)));
    gone.deleted = true;
    gone.hash = ContentHash::empty();
    let mut newdir = remote2("newdir", 0, Version::empty().incremented(node(2)));
    newdir.kind = Kind::Dir;
    newdir.hash = ContentHash::empty();
    let batch = batch_of(
        vec![
            remote2("same", 1, mine.version.clone()), // equal
            remote2("older", 9, Version::empty()),    // dominated (empty)
            remote2("conflict", 7, Version::empty().incremented(node(2))), // concurrent
            touched,                                  // dominates, same content
            gone,                                     // dominates, tombstone
            remote2("newfile", 8, Version::empty().incremented(node(2))), // absent locally
            newdir,
        ],
        7,
    );
    let set = apply_set(&idx, &batch);
    assert_eq!(
        (set.folder, set.batch, set.source, set.seq_high),
        (folder(), batch_id(1), node(2), 7)
    );
    assert_eq!(set.ignored, 2);
    assert_eq!(set.duplicates, 0);
    let got: Vec<(String, String)> = set
        .items
        .iter()
        .map(|i| {
            let mut what = format!("{:?}", i.mode());
            if i.conflict().is_some() {
                what.push_str("+copy");
            }
            (i.path().as_str().to_owned(), what)
        })
        .collect();
    assert_eq!(
        got,
        [
            ("conflict".to_owned(), "Fetch+copy".to_owned()),
            ("gone".to_owned(), "Direct".to_owned()),
            ("newdir".to_owned(), "Direct".to_owned()),
            ("newfile".to_owned(), "Fetch".to_owned()),
            ("touched".to_owned(), "MetadataOnly".to_owned()),
        ],
        "sorted by path"
    );
    // The incoming edit (mtime 5) beat the local one (mtime 1): the item
    // is M with the incoming content, and the local file becomes the copy.
    let m = set.items[0].incoming();
    assert_eq!(m.hash, hash(7));
    assert!(
        m.version
            .dominates(&idx.get(&p("conflict")).unwrap().entry.version)
    );
    let copy = set.items[0].conflict().unwrap();
    assert_eq!(copy.loser.hash, hash(3));
    assert_eq!(copy.path.as_str(), "conflict.conflict-19700101-000000-h");
    assert_eq!(set.fallbacks, 0);
}

#[test]
fn a_tombstone_with_the_larger_stamp_wins_and_displaces_the_edit() {
    // The local edit is older than the deleted file's last edit: the deletion wins by its stamp,
    // and the edit goes to its conflict copy rather than the trash.
    let mut idx = Index::new(node(1), HostName::new("h").unwrap());
    let mut local = entry("f", 3, Version::empty().incremented(node(1)), 1);
    local.stamp = 10;
    idx.adopt(local.clone());
    let mut dead = entry("f", 0, Version::empty().incremented(node(2)), 2);
    dead.deleted = true;
    dead.hash = ContentHash::empty();
    dead.stamp = 20;
    let c = classify(&idx, &dead);
    let ApplyItem::Apply {
        entry,
        mode,
        conflict,
    } = c.item.unwrap();
    assert!(entry.deleted, "the tombstone wins");
    assert_eq!(mode, ApplyMode::Direct, "nothing to fetch");
    let copy = conflict.expect("the live loser is displaced to its copy");
    assert_eq!(copy.loser, local);
    assert!(copy.path.as_str().contains(".conflict-"));
    // The reverse: an edit newer than the deleted file's last edit wins.
    let mut fresh = local.clone();
    fresh.stamp = 30;
    let mut idx = Index::new(node(1), HostName::new("h").unwrap());
    idx.adopt(fresh);
    let ApplyItem::Apply {
        entry,
        mode,
        conflict,
    } = classify(&idx, &dead).item.unwrap();
    assert!(!entry.deleted, "the edit wins and the deletion is dropped");
    assert_eq!(mode, ApplyMode::IndexOnly);
    assert!(conflict.is_none());
}

#[test]
fn an_identical_content_merge_that_ties_everywhere_is_not_a_fallback() {
    // Two nodes create the same directory: same content, same (zero)
    // mtime, and after adoption elsewhere the same author too.
    let mut idx = index(1);
    idx.observe(p("d"), dir()).unwrap();
    let mine = idx.get(&p("d")).unwrap().entry.clone();
    let mut theirs = mine.clone();
    theirs.version = Version::empty().incremented(node(2));
    theirs.modified_by = mine.modified_by; // as it would be after relaying M
    let set = apply_set(&idx, &batch_of(vec![theirs.clone()], 1));
    assert_eq!(set.items.len(), 1);
    assert_eq!(set.items[0].mode(), ApplyMode::IndexOnly);
    assert_eq!(
        set.items[0].incoming().version,
        mine.version.merge(&theirs.version)
    );
    assert_eq!(
        set.fallbacks, 0,
        "a full tie on identical content is not a rule-5 decision"
    );
}

#[test]
fn duplicate_paths_keep_the_last_and_are_counted() {
    let idx = index(1);
    let v1 = Version::empty().incremented(node(2));
    let v2 = v1.incremented(node(2));
    let batch = batch_of(vec![entry("a", 1, v1, 2), entry("a", 2, v2.clone(), 2)], 2);
    let set = apply_set(&idx, &batch);
    assert_eq!(set.duplicates, 1);
    assert_eq!(set.items.len(), 1);
    assert_eq!(set.items[0].incoming().version, v2);
    assert_eq!(set.items[0].incoming().hash, hash(2));
}

#[test]
fn same_content_without_an_mtime_is_index_only() {
    let mut idx = index(1);
    idx.observe(p("a"), file(1, 1)).unwrap();
    let tomb = idx.observe_absent(&p("a"), 2).unwrap().record.entry;
    let mut incoming = tomb.clone();
    incoming.version = tomb.version.incremented(node(2));
    incoming.modified_by = node(2);
    idx.observe(p("d"), dir()).unwrap();
    let mut newer_dir = idx.get(&p("d")).unwrap().entry.clone();
    newer_dir.version = newer_dir.version.incremented(node(2));
    let set = apply_set(&idx, &batch_of(vec![incoming, newer_dir], 2));
    let modes: Vec<_> = set.items.iter().map(ApplyItem::mode).collect();
    assert_eq!(modes, [ApplyMode::IndexOnly, ApplyMode::IndexOnly]);
}

#[derive(Clone, Debug)]
enum Step {
    See { path: u8, hash: u8, mtime: i64 },
    Gone { path: u8, at: i64 },
    Adopt { path: u8, hash: u8 },
    Announce,
}

fn path_of(i: u8) -> RelPath {
    p(&format!("p{i}"))
}

fn drive(idx: &mut Index, steps: &[Step]) {
    for s in steps {
        match *s {
            Step::See { path, hash, mtime } => {
                idx.observe(path_of(path), file(hash, mtime));
            }
            Step::Gone { path, at } => {
                idx.observe_absent(&path_of(path), at);
            }
            Step::Adopt { path, hash } => {
                // A remote version that dominates whatever we hold.
                let base = idx
                    .get(&path_of(path))
                    .map(|r| r.entry.version.clone())
                    .unwrap_or_default();
                let e = entry(&format!("p{path}"), hash, base.incremented(node(2)), 2);
                idx.adopt(e);
            }
            Step::Announce => idx.mark_announced(),
        }
    }
}

/// A fixed run of steps that mixes observations, deletions, adoptions and announcements.
fn steps(seed: u64, n: usize) -> Vec<Step> {
    let mut x = seed;
    let mut next = |m: u64| {
        x = x.wrapping_mul(6364136223846793005).wrapping_add(1442695040888963407);
        (x >> 33) % m
    };
    (0..n)
        .map(|_| match next(9) {
            0..=3 => Step::See {
                path: next(5) as u8,
                hash: next(3) as u8,
                mtime: next(4) as i64,
            },
            4..=5 => Step::Gone {
                path: next(5) as u8,
                at: next(4) as i64,
            },
            6..=7 => Step::Adopt {
                path: next(5) as u8,
                hash: next(3) as u8,
            },
            _ => Step::Announce,
        })
        .collect()
}

#[test]
fn formation_covers_everything_unannounced_once_in_order() {
    for seed in 0..40 {
        let mut idx = index(1);
        drive(&mut idx, &steps(seed, 30));
        let records = idx.unannounced();
        let batches = form(batch_id(1), folder(), node(1), now(), &records, idx.announced_seq());
        let entries: Vec<&Entry> = batches.iter().flat_map(|b| b.entries.iter()).collect();
        assert_eq!(entries.len(), records.len());
        for (e, (r, _)) in entries.iter().zip(&records) {
            assert_eq!(**e, r.entry);
        }
        if let Some(b) = batches.first() {
            assert_eq!(b.seq_low, idx.announced_seq());
            assert_eq!(b.seq_high, idx.seq());
        }
    }
}

#[test]
fn every_candidate_dominates_the_local_record_in_path_order() {
    for seed in 0..40 {
        let mut a = index(1);
        let mut b = index(2);
        drive(&mut a, &steps(seed, 25));
        drive(&mut b, &steps(seed + 100, 25));
        let formed = form(batch_id(1), folder(), node(2), now(), &b.unannounced(), 0);
        for batch in &formed {
            let set = apply_set(&a, batch);
            for w in set.items.windows(2) {
                assert!(w[0].path() < w[1].path());
            }
            for item in &set.items {
                if let Some(r) = a.get(item.path()) {
                    assert!(item.incoming().version.dominates(&r.entry.version));
                }
            }
            assert_eq!(set.is_empty(), set.items.is_empty());
        }
    }
}

#[test]
fn formation_covers_unannounced_exactly_once() {
    for run in 0..60 {
        let mut idx = index(1);
        drive(&mut idx, &steps(run, 1 + run as usize % 40));
        let batches = form(batch_id(1), folder(), node(1), now(), &idx.unannounced(), 0);
        let total: usize = batches.iter().map(|b| b.entries.len()).sum();
        assert_eq!(total, idx.unannounced().len());
        let unannounced = idx.unannounced();
        let mut expected = unannounced.iter().map(|(r, _)| r.entry.clone());
        let mut last_seq = idx.announced_seq();
        for (i, b) in batches.iter().enumerate() {
            assert_eq!(b.id, batch_id(1).successor(i as u128));
            for e in &b.entries {
                let next = expected.next();
                assert_eq!(Some(e), next.as_ref());
                let seq = idx.get(&e.path).unwrap().seq;
                assert!(seq > last_seq);
                last_seq = seq;
            }
            assert_eq!(b.seq_high, last_seq);
        }
        assert!(expected.next().is_none());
        if let Some(last) = batches.last() {
            assert_eq!(last.seq_high, idx.seq());
        }
        idx.mark_announced();
        assert!(idx.unannounced().is_empty());
    }
}

#[test]
fn formation_is_deterministic() {
    for run in 0..40 {
        let mut idx = index(1);
        drive(&mut idx, &steps(run, 1 + run as usize % 40));
        let other = idx.clone();
        let a = form(batch_id(1), folder(), node(1), now(), &idx.unannounced(), 0);
        let b = form(batch_id(1), folder(), node(1), now(), &other.unannounced(), 0);
        assert_eq!(a, b);
    }
}

#[test]
fn apply_set_agrees_with_compare() {
    for run in 0..60 {
        let mut local = index(1);
        drive(&mut local, &steps(run, run as usize % 30));
        let mut remote = index(3);
        drive(&mut remote, &steps(run + 500, 1 + run as usize % 29));
        let batches = form(batch_id(1), folder(), node(3), now(), &remote.unannounced(), 0);
        for batch in &batches {
            let set = apply_set(&local, batch);
            let again = apply_set(&local, batch);
            assert_eq!(set, again);
            assert!(set.items.windows(2).all(|w| w[0].path() < w[1].path()));
            let mut expected_items = 0;
            let mut expected_ignored = 0;
            let mut last_seen: BTreeMap<&RelPath, &Entry> = BTreeMap::new();
            for e in &batch.entries {
                last_seen.insert(&e.path, e);
            }
            assert_eq!(set.duplicates, batch.entries.len() - last_seen.len());
            for (path, incoming) in last_seen {
                let item = set.items.iter().find(|i| i.path() == path);
                match local.get(path) {
                    None => {
                        expected_items += 1;
                        assert!(matches!(item, Some(ApplyItem::Apply { .. })));
                    }
                    Some(r) => match incoming.version.compare(&r.entry.version) {
                        Relation::Dominates => {
                            expected_items += 1;
                            let want = if r.entry.same_content(incoming) {
                                if incoming.kind == Kind::File && !incoming.deleted {
                                    ApplyMode::MetadataOnly
                                } else {
                                    ApplyMode::IndexOnly
                                }
                            } else if incoming.deleted || incoming.kind == Kind::Dir {
                                ApplyMode::Direct
                            } else {
                                ApplyMode::Fetch
                            };
                            assert_eq!(item.unwrap().mode(), want);
                        }
                        Relation::Concurrent => {
                            expected_items += 1;
                            let item = item.unwrap();
                            let m = item.incoming();
                            assert_eq!(m.version, incoming.version.merge(&r.entry.version));
                            assert!(m.version.dominates(&r.entry.version));
                            if r.entry.same_content(incoming) {
                                assert!(item.conflict().is_none());
                                assert!(matches!(
                                    item.mode(),
                                    ApplyMode::IndexOnly | ApplyMode::MetadataOnly
                                ));
                            } else {
                                let res = resolve(incoming, &r.entry);
                                assert_eq!(m, &res.merged);
                                match res.winner {
                                    Side::Second => {
                                        assert_eq!(item.mode(), ApplyMode::IndexOnly);
                                        assert!(item.conflict().is_none());
                                    }
                                    Side::First => {
                                        assert!(matches!(
                                            item.mode(),
                                            ApplyMode::Fetch | ApplyMode::Direct
                                        ));
                                        assert_eq!(item.conflict().is_some(), !r.entry.deleted);
                                    }
                                }
                            }
                        }
                        Relation::Equal | Relation::Dominated => {
                            expected_ignored += 1;
                            assert!(item.is_none());
                        }
                    },
                }
            }
            assert_eq!(set.items.len(), expected_items);
            assert_eq!(set.ignored, expected_ignored);
        }
    }
}
