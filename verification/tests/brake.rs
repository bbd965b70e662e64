use delocal_engine::batch::{apply_set, form, Summary};
use delocal_engine::brake::{evaluate, receiver_summary, HoldReason, Verdict};
use delocal_engine::entry::{ContentHash, Kind, Observed};
use delocal_engine::id::{BatchId, FolderId, HostName, NodeId};
use delocal_engine::index::Index;
use delocal_engine::path::RelPath;
use delocal_engine::rules::Rules;
use delocal_engine::time::Timestamp;

fn rules() -> Rules {
    Rules::default()
}

fn summary(adds: u64, mods: u64, dels: u64, bytes: u64) -> Summary {
    Summary {
        adds,
        mods,
        dels,
        bytes,
    }
}

#[test]
fn h1_needs_both_the_count_and_the_percentage() {
    // 50 of 1000 is 5%: count reached, percentage not.
    assert_eq!(
        evaluate(&rules(), &summary(0, 0, 50, 0), 1000),
        Verdict::Pass
    );
    // 50 of 200 is exactly 25%: at-or-above trips.
    assert_eq!(
        evaluate(&rules(), &summary(0, 20, 30, 0), 200),
        Verdict::Hold(HoldReason::Count {
            destructive: 50,
            tracked_before: 200
        })
    );
    // 49 of 100 is 49%: percentage reached, count not.
    assert_eq!(
        evaluate(&rules(), &summary(0, 49, 0, 0), 100),
        Verdict::Pass
    );
    // 51 of 201 is 25.37%: integer arithmetic must not round it down.
    assert!(evaluate(&rules(), &summary(0, 0, 51, 0), 201).is_hold());
    // 50 of 201 is 24.87%: passes.
    assert_eq!(
        evaluate(&rules(), &summary(0, 0, 50, 0), 201),
        Verdict::Pass
    );
}

#[test]
fn adds_never_count_toward_h1() {
    assert_eq!(
        evaluate(&rules(), &summary(10_000, 0, 0, 0), 10),
        Verdict::Pass
    );
}

#[test]
fn h1_cannot_trip_on_an_empty_folder_and_zero_disables_it() {
    assert_eq!(evaluate(&rules(), &summary(0, 0, 500, 0), 0), Verdict::Pass);
    let off = Rules {
        hold_count: 0,
        ..rules()
    };
    assert_eq!(evaluate(&off, &summary(0, 0, 500, 0), 10), Verdict::Pass);
}

#[test]
fn h2_is_strictly_above_and_checked_after_h1() {
    let r = rules();
    assert_eq!(
        evaluate(&r, &summary(1, 0, 0, r.hold_size), 10),
        Verdict::Pass
    );
    assert_eq!(
        evaluate(&r, &summary(1, 0, 0, r.hold_size + 1), 10),
        Verdict::Hold(HoldReason::Size {
            bytes: r.hold_size + 1
        })
    );
    // Both trip: the count reason is reported.
    assert!(matches!(
        evaluate(&r, &summary(0, 100, 0, r.hold_size + 1), 100),
        Verdict::Hold(HoldReason::Count { .. })
    ));
}

#[test]
fn receiver_classifies_against_the_local_record() {

    fn node(i: u8) -> NodeId {
        let mut b = [0u8; 16];
        b[0] = i;
        NodeId::from_bytes(b)
    }
    fn hash(i: u8) -> ContentHash {
        let mut b = [0u8; 32];
        b[0] = i;
        b[31] = 1;
        ContentHash::from_bytes(b)
    }
    let p = |s: &str| RelPath::new(s).unwrap();
    let obs = |kind: Kind, h: u8, mtime: i64, executable: bool| Observed {
        kind,
        size: if kind == Kind::Dir { 0 } else { 10 },
        mtime_ns: if kind == Kind::File { mtime } else { 0 },
        executable,
        hash: if kind == Kind::Dir {
            ContentHash::empty()
        } else {
            hash(h)
        },
    };

    // The remote (node 2) and the local (node 1) start from the same
    // announced state, built on the remote and adopted locally.
    let mut remote = Index::new(node(2), HostName::new("r").unwrap());
    let mut local = Index::new(node(1), HostName::new("l").unwrap());
    for (path, kind, h) in [
        ("touched", Kind::File, 1),
        ("edited", Kind::File, 2),
        ("chmod", Kind::File, 3),
        ("gone", Kind::File, 4),
        ("link", Kind::Symlink, 5),
        ("dir", Kind::Dir, 0),
        ("dir/inner", Kind::File, 6),
        ("same", Kind::File, 7),
    ] {
        let c = remote.observe(p(path), obs(kind, h, 1, false)).unwrap();
        local.adopt(c.record.entry);
    }
    remote.mark_announced();
    local.mark_announced();

    remote
        .observe(p("touched"), obs(Kind::File, 1, 9, false))
        .unwrap(); // metadata only
    remote
        .observe(p("edited"), obs(Kind::File, 8, 9, false))
        .unwrap(); // mod
    remote
        .observe(p("chmod"), obs(Kind::File, 3, 1, true))
        .unwrap(); // executable only: a mod
    remote.observe_absent(&p("gone"), 9).unwrap(); // del
    remote.observe_absent(&p("link"), 9).unwrap(); // del: symlinks are tracked
    remote.observe_absent(&p("dir/inner"), 9).unwrap(); // del
    remote.observe_absent(&p("dir"), 9).unwrap(); // NOT a del: directories are out of the ratio
    remote
        .observe(p("new"), obs(Kind::File, 9, 9, false))
        .unwrap(); // add
    remote
        .observe(p("newdir"), obs(Kind::Dir, 0, 0, false))
        .unwrap(); // add (0 bytes)
    remote.observe_absent(&p("never"), 9); // no record: nothing happens
    let batch = form(
        BatchId::from_bytes([1; 16]),
        FolderId::from_bytes([7; 16]),
        node(2),
        Timestamp::from_unix_nanos(1),
        &remote.unannounced(),
        0,
    )
    .remove(0);
    let set = apply_set(&local, &batch);
    assert_eq!(set.items.len(), 9);
    let s = receiver_summary(&local, &set);
    assert_eq!(
        s,
        Summary {
            adds: 2,
            mods: 2,
            dels: 3,
            bytes: 30,
        },
        "touch ignored; edited and chmod are mods; gone, link and dir/inner are dels; dir is not"
    );
    assert_eq!(s.destructive(), 5);
    assert_eq!(
        local.tracked_count(),
        7,
        "the denominator leaves the directory out too"
    );
}

#[test]
fn reasons_read_well() {
    assert_eq!(
        HoldReason::Count {
            destructive: 612,
            tracked_before: 1200
        }
        .to_string(),
        "count: 612 deletes and modifies = 51% of 1200 tracked"
    );
    assert_eq!(
        HoldReason::Size { bytes: 5 }.to_string(),
        "size: 5 bytes of adds and modifies"
    );
}

#[test]
fn the_brake_is_monotone_and_saturates() {
    let r = rules();
    assert!(evaluate(&r, &summary(0, 20, 30, 0), 200).is_hold());
    assert!(evaluate(&r, &summary(0, 25, 40, 9), 200).is_hold());
    assert!(!Verdict::Pass.is_hold());
    let full = summary(0, u64::MAX, 1, 0);
    assert_eq!(full.destructive(), u64::MAX);
    assert_eq!(
        evaluate(&r, &full, 1),
        Verdict::Hold(HoldReason::Count {
            destructive: u64::MAX,
            tracked_before: 1
        })
    );
    assert_eq!(
        HoldReason::Count {
            destructive: 3,
            tracked_before: 0
        }
        .to_string(),
        "count: 3 deletes and modifies = 100% of 0 tracked"
    );
}
