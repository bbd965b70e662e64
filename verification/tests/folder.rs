use delocal_engine::batch::{apply_set, ApplyItem, ApplyMode, Decision, MAX_BATCH_ENTRIES, Summary};
use delocal_engine::brake::{evaluate, receiver_summary, HoldReason, Verdict};
use delocal_engine::conflict::{conflict_copy_name, resolve, Side};
use delocal_engine::entry::{ContentHash, Entry, Kind, Observed};
use delocal_engine::folder::{
    ApplyOutcome, Approved, Deferred, DeferredReason, Displace, Expected, FolderParts, FolderState,
    FolderStatus, HostStep, ScanState, Scanned, Ticked, Window,
};
use delocal_engine::id::{BatchId, FolderId, HostName, NodeId};
use delocal_engine::index::{ChangeKind, Index, IndexRecord};
use delocal_engine::ordmap::OrdMap;
use delocal_engine::path::RelPath;
use delocal_engine::quarantine::{HeldItem, Quarantine};
use delocal_engine::rules::Rules;
use delocal_engine::time::{Timestamp, DEBOUNCE_NANOS, NANOS_PER_SECOND, WINDOW_NANOS};
use delocal_engine::version::Version;
use delocal_engine::want::{FetchReport, Tier, WantList, WantState};
use std::collections::BTreeMap;

fn node(i: u8) -> NodeId {
    let mut b = [0u8; 16];
    b[0] = i;
    NodeId::from_bytes(b)
}

fn hash(i: u8) -> ContentHash {
    let mut b = [0u8; 32];
    b[0] = i;
    b[31] = 1;
    ContentHash::from_bytes(b)
}

fn p(s: &str) -> RelPath {
    RelPath::new(s).unwrap()
}

fn t(secs: f64) -> Timestamp {
    Timestamp::from_unix_nanos((secs * NANOS_PER_SECOND as f64) as i64)
}

fn file(h: u8, mtime_ns: i64) -> ScanState {
    ScanState::Observed(Observed {
        kind: Kind::File,
        size: 10,
        mtime_ns,
        executable: false,
        hash: hash(h),
    })
}

fn folder() -> FolderState {
    FolderState::new(
        FolderId::from_bytes([7; 16]),
        Rules::default(),
        &vec![node(1), node(2)],
        node(1),
        HostName::new("laptop").unwrap(),
    )
}

fn batch_id() -> BatchId {
    BatchId::from_bytes([9; 16])
}

#[test]
fn window_due_is_min_of_debounce_and_cap() {
    let mut f = folder();
    assert_eq!(f.due(), None);
    assert!(!f.is_due(t(100.0)));
    f.scanned(t(10.0), p("a"), file(1, 1));
    assert_eq!(
        f.window(),
        Some(Window {
            opened: t(10.0),
            last: t(10.0)
        })
    );
    assert_eq!(f.due(), Some(t(12.0)), "2 s of quiet");
    f.scanned(t(11.5), p("b"), file(1, 1));
    assert_eq!(f.due(), Some(t(13.5)));
    f.scanned(t(13.0), p("c"), file(1, 1));
    f.scanned(t(15.0), p("d"), file(1, 1));
    f.scanned(t(17.0), p("e"), file(1, 1));
    f.scanned(t(19.0), p("f"), file(1, 1));
    assert_eq!(f.due(), Some(t(20.0)), "capped at 10 s after the first");
    assert!(!f.is_due(t(19.9)));
    assert!(f.is_due(t(20.0)));
    let batches = f.form_batches(t(20.0), batch_id());
    assert_eq!(batches.len(), 1);
    assert_eq!(batches[0].entries.len(), 6);
    assert_eq!(f.due(), None, "window closes");
    assert!(f.index().unannounced().is_empty());
}

#[test]
fn a_no_op_report_does_not_open_the_window() {
    let mut f = folder();
    f.scanned(t(1.0), p("a"), file(1, 1));
    f.form_batches(t(3.0), batch_id());
    let out = f.scanned(t(4.0), p("a"), file(1, 1));
    assert_eq!(out, Scanned::default());
    assert_eq!(f.due(), None);
    let out = f.scanned(t(4.0), p("a"), ScanState::Unchanged);
    assert_eq!(out, Scanned::default());
    assert_eq!(f.due(), None);
}

#[test]
fn unchanged_for_an_unknown_path_is_a_host_bug() {
    let mut f = folder();
    let out = f.scanned(t(1.0), p("ghost"), ScanState::Unchanged);
    assert_eq!(out.change, None);
    assert_eq!(
        out.status,
        Some(FolderStatus::UnchangedUnknownPath { path: p("ghost") })
    );
    assert_eq!(f.index().len(), 0);
    assert_eq!(f.due(), None);
}

#[test]
fn scan_bracket_tombstones_what_it_did_not_see() {
    let mut f = folder();
    f.scanned(t(1.0), p("keep"), file(1, 1));
    f.scanned(t(1.0), p("gone"), file(2, 1));
    f.scanned(t(1.0), p("dir/inner"), file(3, 1));
    f.form_batches(t(3.0), batch_id());
    f.scan_started();
    assert!(f.scan_open());
    f.scanned(t(5.0), p("keep"), ScanState::Unchanged);
    f.scanned(t(5.0), p("dir/inner"), file(4, 2));
    let changes = f.scan_finished(t(6.0)).unwrap();
    assert!(!f.scan_open());
    assert_eq!(changes.len(), 1);
    let tomb = &changes[0].record.entry;
    assert_eq!(tomb.path, p("gone"));
    assert!(tomb.deleted);
    assert_eq!(tomb.mtime_ns, t(6.0).as_unix_nanos());
    assert_eq!(f.index().tracked_count(), 2);
    assert_eq!(
        f.due(),
        Some(t(8.0)),
        "window opened at the 5 s write in the bracket; the 6 s tombstone extends the quiet period"
    );
}

#[test]
fn aborted_scan_announces_no_deletes() {
    let mut f = folder();
    f.scanned(t(1.0), p("a"), file(1, 1));
    f.scanned(t(1.0), p("b"), file(2, 1));
    f.form_batches(t(3.0), batch_id());
    f.scan_started();
    f.scanned(t(5.0), p("a"), ScanState::Unchanged);
    assert_eq!(f.scan_aborted(), Ok(()));
    assert!(!f.scan_open());
    assert_eq!(f.index().tracked_count(), 2);
    assert_eq!(f.due(), None);
    assert_eq!(f.scan_aborted(), Err(FolderStatus::ScanNotOpen));
    assert_eq!(f.scan_finished(t(6.0)), Err(FolderStatus::ScanNotOpen));
}

#[test]
fn watcher_absent_outside_a_bracket_deletes_directly() {
    let mut f = folder();
    f.scanned(t(1.0), p("a"), file(1, 1));
    let out = f.scanned(t(2.0), p("a"), ScanState::Absent);
    assert!(out.change.unwrap().record.entry.deleted);
    assert_eq!(
        f.scanned(t(3.0), p("a"), ScanState::Absent),
        Scanned::default()
    );
}

#[test]
fn receive_stores_non_empty_apply_sets_and_applied_adopts() {
    let mut a = folder();
    a.scanned(t(1.0), p("x"), file(1, 1));
    let batch = a.form_batches(t(3.0), batch_id()).remove(0);

    let mut b = FolderState::new(
        a.id(),
        Rules::default(),
        &vec![node(1), node(2)],
        node(2),
        HostName::new("desktop").unwrap(),
    );
    let set = b.receive(t(0.0), &batch).set;
    assert_eq!(set.items.len(), 1);
    assert_eq!(b.wants().len(), 1);
    // Receiving is not writing: no window.
    assert_eq!(b.due(), None);

    let entry = set.items[0].incoming().clone();
    let none = b.applied(t(5.0), &p("nope"), &entry.version, ApplyOutcome::Done);
    assert!(none.is_empty());
    let record = b
        .applied(t(5.0), &entry.path, &entry.version, ApplyOutcome::Done)
        .remove(0);
    assert_eq!(record.entry, entry);
    assert_eq!(record.seq, 1);
    assert!(b.wants().is_empty(), "the want ended");
    assert_eq!(b.due(), Some(t(7.0)), "an adoption opens the window");
    let relayed = b.form_batches(t(7.0), batch_id().successor(5)).remove(0);
    assert_eq!(relayed.entries, vec![entry.clone()]);
    assert_eq!(relayed.summary, Default::default(), "adopted, not counted");

    // A second copy of the same batch is entirely ignored now.
    let again = b.receive(t(0.0), &batch).set;
    assert!(again.is_empty());
    assert_eq!(again.ignored, 1);
    assert!(b.wants().is_empty());
}

#[test]
fn changed_underneath_keeps_the_entry_until_the_path_is_observed() {
    let mut a = folder();
    a.scanned(t(1.0), p("x"), file(1, 1));
    let batch = a.form_batches(t(3.0), batch_id()).remove(0);
    let mut b = FolderState::new(
        a.id(),
        Rules::default(),
        &vec![node(1), node(2)],
        node(2),
        HostName::new("desktop").unwrap(),
    );
    let set = b.receive(t(0.0), &batch).set;
    let entry = set.items[0].incoming().clone();
    let out = b.applied(
        t(5.0),
        &entry.path,
        &entry.version,
        ApplyOutcome::ChangedUnderneath,
    );
    assert!(out.is_empty());
    assert!(b.wants().is_empty());
    assert_eq!(b.index().get(&p("x")), None);
    assert_eq!(b.due(), None);
    let kept: Vec<_> = b.deferred();
    assert_eq!(kept.len(), 1);
    assert_eq!(kept[0].entry, entry);
    assert_eq!(
        (kept[0].batch, kept[0].source, kept[0].seq_high),
        (batch.id, node(1), 1)
    );

    // The scan finds the file the user created underneath: a new local
    // version, concurrent with A's and with different content. A's has
    // the larger mtime, so A wins and the local file becomes the copy.
    b.scanned(t(6.0), p("x"), file(9, 0));
    assert!(b.deferred().is_empty());
    assert_eq!(b.wants().len(), 1);
    let want = b.wants().get(&p("x")).unwrap();
    assert_eq!(
        (want.batch, want.source, want.seq_high),
        (batch.id, node(1), 1)
    );
    assert_eq!(want.mode, ApplyMode::Fetch);
    let m = &want.entry;
    assert_eq!(m.hash, hash(1), "M carries the winner's content");
    assert!(m.version.dominates(&entry.version));
    assert!(
        m.version
            .dominates(&b.index().get(&p("x")).unwrap().entry.version)
    );
    let copy = want.conflict.as_ref().unwrap();
    assert_eq!(copy.loser.hash, hash(9));
    assert_eq!(copy.loser.modified_by, node(2));
    assert_eq!(copy.path.as_str(), "x.conflict-19700101-000000-desktop");
}

#[test]
fn a_deferred_entry_whose_path_vanishes_in_a_scan_bracket_becomes_a_conflict() {
    // B creates x and announces it; A adopts it, edits it and announces
    // the edit, which dominates B's version.
    let mut b = FolderState::new(
        FolderId::from_bytes([7; 16]),
        Rules::default(),
        &vec![node(1), node(2)],
        node(2),
        HostName::new("desktop").unwrap(),
    );
    let b_entry = b
        .scanned(t(0.5), p("x"), file(5, 5))
        .change
        .unwrap()
        .record
        .entry;
    b.form_batches(t(2.5), batch_id().successor(1));
    let mut a = folder();
    a.adopt(t(3.0), b_entry);
    a.scanned(t(3.5), p("x"), file(1, 1));
    let batch = a.form_batches(t(5.5), batch_id()).remove(0);

    let set = b.receive(t(0.0), &batch).set;
    let entry = set.items[0].incoming().clone();
    assert!(matches!(set.items[0], ApplyItem::Apply { .. }));
    // The user edited x meanwhile, so the commit finds it changed.
    b.applied(
        t(6.0),
        &entry.path,
        &entry.version,
        ApplyOutcome::ChangedUnderneath,
    );
    assert_eq!(b.deferred().len(), 1);

    // Then the user deleted x. The watcher missed it; only the full scan
    // notices, and a scan never reports a path that is gone.
    b.scan_started();
    let changes = b.scan_finished(t(7.0)).unwrap();
    assert_eq!(changes.len(), 1);
    assert!(changes[0].record.entry.deleted);
    assert!(b.deferred().is_empty(), "not stuck");
    assert_eq!(b.wants().len(), 1);

    // no local file to displace, so no conflict copy; M carries A's
    // content under the merged vector.
    let want = b.wants().get(&p("x")).unwrap();
    assert_eq!(want.mode, ApplyMode::Fetch);
    assert!(want.conflict.is_none());
    let m = &want.entry;
    assert!(m.same_content(&entry));
    assert!(!m.deleted);
    let tomb = &b.index().get(&p("x")).unwrap().entry;
    assert!(tomb.deleted);
    assert!(m.version.dominates(&tomb.version));
    assert!(m.version.dominates(&entry.version));
}

#[test]
fn a_deferred_entry_that_still_dominates_is_re_accepted() {
    let mut a = folder();
    a.scanned(t(1.0), p("x"), file(1, 1));
    let batch = a.form_batches(t(3.0), batch_id()).remove(0);
    let mut b = folder();
    let entry = b.receive(t(0.0), &batch).set.items[0].incoming().clone();
    b.applied(
        t(5.0),
        &entry.path,
        &entry.version,
        ApplyOutcome::ChangedUnderneath,
    );
    // The observation finds nothing there after all (a transient file).
    b.scanned(t(6.0), p("x"), ScanState::Absent);
    assert_eq!(b.wants().len(), 1);
    let want = b.wants().get(&p("x")).unwrap();
    assert_eq!(want.entry, entry);
    assert_eq!(want.mode, ApplyMode::Fetch);
    assert!(want.conflict.is_none());
    assert!(b.deferred().is_empty());
}

#[test]
fn receive_records_the_source_seq() {
    let mut a = folder();
    a.scanned(t(1.0), p("x"), file(1, 1));
    a.scanned(t(1.0), p("y"), file(2, 1));
    let batch = a.form_batches(t(3.0), batch_id()).remove(0);
    let mut b = folder();
    assert_eq!(b.index().peer_seq(node(1)), 0);
    b.receive(t(0.0), &batch);
    assert_eq!(b.index().peer_seq(node(1)), 2);
    assert_eq!(b.index().peer_seq(node(1)), batch.seq_high);
}

#[test]
fn acknowledgements_replace_what_we_knew() {
    let mut f = folder();
    assert_eq!(f.acked_by(node(2)), 0);
    f.acknowledged(node(2), 7);
    f.acknowledged(node(2), 3);
    assert_eq!(f.acked_by(node(2)), 3, "the peer's watermark is the truth");
}

#[test]
fn a_batch_lost_in_flight_is_caught_up_from_the_watermark() {
    // A announces f00 (seq 1) in one batch and f01 (seq 2) in the next;
    // only the second reaches B. B has a gap, acknowledges its watermark

    let mut a = folder_with(Rules::default(), 1, "alpha");
    let mut b = folder_with(Rules::default(), 2, "bravo");
    a.scanned(t(1.0), p("f00"), file(1, 1));
    let first = a.form_batches(t(3.0), bid(1)).remove(0);
    a.scanned(t(4.0), p("f01"), file(2, 2));
    let second = a.form_batches(t(6.0), bid(2)).remove(0);
    assert_eq!((first.seq_low, first.seq_high), (0, 1));
    assert_eq!((second.seq_low, second.seq_high), (1, 2), "the chain");

    let r = b.receive(t(6.0), &second);
    assert_eq!(r.decision, Decision::Accepted, "processed all the same");
    assert_eq!(b.wants().len(), 1, "f01 is wanted");
    assert_eq!(
        b.index().peer_seq(node(1)),
        0,
        "acknowledged at the watermark"
    );
    assert!(b.index().peer_has_gap(node(1)));

    a.acknowledged(node(2), b.index().peer_seq(node(1)));
    assert!(a.wake_now(), "catch-up at the next tick");
    let (mut batches, _) = a.catchup_batches(t(7.0), bid(3));
    let (peer, mut sent) = batches.remove(0);
    assert_eq!(peer, node(2));
    let resend = sent.remove(0);
    assert_eq!((resend.seq_low, resend.seq_high), (0, 2));
    assert_eq!(resend.entries.len(), 2, "both records, f01 again");
    let r = b.receive(t(7.0), &resend);
    assert_eq!(
        r.already_wanted, 1,
        "f01's copy only names the source again"
    );
    assert_eq!(b.wants().len(), 2);
    assert_eq!(b.index().peer_seq(node(1)), 2, "the gap filled");
    assert!(!b.index().peer_has_gap(node(1)));
    a.acknowledged(node(2), 2);
    assert!(!a.wake_now(), "nothing left to catch up");
}

fn desktop() -> FolderState {
    FolderState::new(
        FolderId::from_bytes([7; 16]),
        Rules::default(),
        &vec![node(1), node(2), node(3)],
        node(2),
        HostName::new("desktop").unwrap(),
    )
}

fn file_obs(h: u8) -> ScanState {
    file(h, 1)
}

fn observed(kind: Kind, h: u8, mtime_ns: i64, executable: bool) -> ScanState {
    ScanState::Observed(Observed {
        kind,
        size: if kind == Kind::Dir { 0 } else { 10 },
        mtime_ns,
        executable,
        hash: if kind == Kind::Dir {
            ContentHash::empty()
        } else {
            hash(h)
        },
    })
}

/// Host shorthand: every member but this one is on the LAN, every fetch
/// succeeds and every commit is `Ok`. Drives the want-list until it is
/// empty and returns every record written.
fn commit_all(f: &mut FolderState, now: Timestamp) -> Vec<IndexRecord> {
    let own = f.index().own();
    let mut peers: OrdMap<NodeId, Tier> = OrdMap::new();
    for m in f.members() {
        if m != own {
            peers.insert(m, Tier::Lan);
        }
    }
    let mut out = Vec::new();
    for _ in 0..64 {
        // Settle whatever an earlier dispatch already asked the host for.
        let in_flight: Vec<(RelPath, Version, WantState)> = f
            .wants()
            .iter().into_iter()
            .map(|w| (w.path().clone(), w.version().clone(), w.state))
            .collect();
        for (path, version, state) in in_flight {
            match state {
                WantState::Fetching { .. } => {
                    f.fetched(now, &path, &version, FetchReport::Done);
                }
                WantState::Committing { .. } => {
                    out.extend(f.applied(now, &path, &version, ApplyOutcome::Done));
                }
                _ => {}
            }
        }
        let (steps, adopted) = f.dispatch(now, &peers);
        out.extend(adopted);
        for step in &steps {
            match step {
                HostStep::Fetch { path, version, .. } => {
                    f.fetched(now, path, version, FetchReport::Done);
                }
                HostStep::Write { path, entry, .. } => {
                    out.extend(f.applied(now, path, &entry.version, ApplyOutcome::Done));
                }
                HostStep::Remove { path, .. } | HostStep::SetMeta { path, .. } => {
                    let version = f.wants().get(path).unwrap().version().clone();
                    out.extend(f.applied(now, path, &version, ApplyOutcome::Done));
                }
            }
        }
        if steps.is_empty() && f.wants().iter().into_iter().all(|w| !w.in_flight()) {
            break;
        }
    }
    assert!(
        f.wants().iter().into_iter().all(|w| !w.in_flight()),
        "commit_all left work in flight: {:?}",
        f.wants()
            .iter().into_iter()
            .map(|w| (w.path().as_str(), w.state))
            .collect::<Vec<_>>()
    );
    out
}

#[test]
fn w_holder_adopts_m_index_only_and_nothing_pends_for_the_copy() {
    // B creates the base; A adopts it. Both edit: B later (wins), A earlier.
    let mut b = desktop();
    let base = b
        .scanned(t(1.0), p("x"), file(1, 1))
        .change
        .unwrap()
        .record
        .entry;
    b.form_batches(t(3.0), batch_id());
    let mut a = folder();
    a.adopt(t(3.0), base);
    a.scanned(t(4.0), p("x"), file(2, 100)); // L
    let batch = a.form_batches(t(6.0), batch_id().successor(1)).remove(0);
    b.scanned(t(4.5), p("x"), file(3, 200)); // W
    let set = b.receive(t(0.0), &batch).set;
    let item = &set.items[0];
    assert_eq!(item.mode(), ApplyMode::IndexOnly);
    assert!(item.conflict().is_none());
    let m = item.incoming();
    assert_eq!(m.hash, hash(3), "M has the local (winning) content");
    assert_eq!(m.modified_by, node(2));
    let written = commit_all(&mut b, t(7.0));
    assert_eq!(written.len(), 1, "no conflict copy on the winner's side");
    assert_eq!(b.index().get(&p("x")).unwrap().entry, *m);
    assert_eq!(b.index().pending_count(), 0, "B's edit is announced as M");
    let out = b.form_batches(t(9.0), batch_id().successor(2)).remove(0);
    assert_eq!(out.entries, vec![m.clone()]);
}

#[test]
fn a_non_empty_directory_that_loses_is_displaced_with_its_children() {
    let mut b = desktop();
    b.scanned(t(1.0), p("d"), observed(Kind::Dir, 0, 0, false));
    b.scanned(t(1.0), p("d/a"), file(1, 1));
    b.scanned(t(1.0), p("d/b"), file(2, 1));
    b.form_batches(t(3.0), batch_id());
    // A never saw the directory and created a file named d.
    let mut a = folder();
    a.scanned(t(2.0), p("d"), file(7, 5));
    let batch = a.form_batches(t(4.0), batch_id().successor(1)).remove(0);
    let set = b.receive(t(0.0), &batch).set;
    let item = &set.items[0];
    assert_eq!(
        item.mode(),
        ApplyMode::Fetch,
        "the file wins: mtime 5 beats a directory's 0"
    );
    let copy = item.conflict().unwrap().clone();
    assert_eq!(copy.path.as_str(), "d.conflict-19700101-000000-desktop");
    assert_eq!(copy.loser.kind, Kind::Dir);
    // The host moves the whole directory aside and writes the file.
    let written = commit_all(&mut b, t(5.0));
    assert_eq!(written.len(), 2);
    assert_eq!(written[0].entry.kind, Kind::File);
    assert_eq!(written[1].entry.kind, Kind::Dir);
    assert_eq!(written[1].entry.path, copy.path);
    // The next full scan sees the moved children and not the old ones.
    b.scan_started();
    b.scanned(t(6.0), p("d"), ScanState::Unchanged);
    b.scanned(t(6.0), copy.path.clone(), ScanState::Unchanged);
    b.scanned(t(6.0), copy.path.join("a").unwrap(), file(1, 1));
    b.scanned(t(6.0), copy.path.join("b").unwrap(), file(2, 1));
    b.scan_finished(t(7.0)).unwrap();
    let pending: Vec<(String, ChangeKind)> = b
        .index()
        .pending()
        .into_iter()
        .map(|(r, k)| (r.entry.path.as_str().to_owned(), k))
        .collect();
    assert_eq!(
        pending,
        [
            (
                "d.conflict-19700101-000000-desktop".to_owned(),
                ChangeKind::Add
            ),
            (
                "d.conflict-19700101-000000-desktop/a".to_owned(),
                ChangeKind::Add
            ),
            (
                "d.conflict-19700101-000000-desktop/b".to_owned(),
                ChangeKind::Add
            ),
            ("d/a".to_owned(), ChangeKind::Delete),
            ("d/b".to_owned(), ChangeKind::Delete),
        ],
        "the copy and two adds, two tombstones"
    );
}

fn tight() -> Rules {
    Rules {
        hold_count: 3,
        hold_pct: 25,
        hold_size: 1_000,
        ..Rules::default()
    }
}

fn folder_with(rules: Rules, own: u8, host: &str) -> FolderState {
    FolderState::new(
        FolderId::from_bytes([7; 16]),
        rules,
        &vec![node(1), node(2), node(3)],
        node(own),
        HostName::new(host).unwrap(),
    )
}

fn bid(i: u8) -> BatchId {
    let mut b = [0xb0u8; 16];
    b[15] = i;
    BatchId::from_bytes(b)
}

/// A (node 1) with `n` announced files, and B (node 2, `rules`) holding
/// the same files after committing A's batch.
fn a_and_b(n: usize, rules: Rules) -> (FolderState, FolderState) {
    let mut a = folder_with(Rules::default(), 1, "alpha");
    for i in 0..n {
        a.scanned(t(1.0), p(&format!("f{i:02}")), file(1, 1));
    }
    let batch = a.form_batches(t(3.0), bid(1)).remove(0);
    // The base is built under the defaults so a tight size limit in `rules`
    // cannot hold the initial adds; the rules apply afterwards.
    let mut b = folder_with(Rules::default(), 2, "bravo");
    let r = b.receive(t(3.0), &batch);
    assert_eq!(r.decision, Decision::Accepted, "adds never trip H1");
    commit_all(&mut b, t(4.0));
    b.form_batches(t(6.0), bid(2));
    assert!(b.rules_changed(rules).is_empty());
    assert_eq!(b.index().tracked_count(), n);
    assert_eq!(b.index().announced_tracked(), n);
    (a, b)
}

#[test]
fn sender_pre_check_pauses_and_stays_paused_until_approve() {
    let (_, mut b) = a_and_b(10, tight());
    for i in 0..8 {
        b.scanned(t(10.0), p(&format!("f{i:02}")), ScanState::Absent);
    }
    let (summary, verdict) = b.precheck();
    assert_eq!(summary.dels, 8);
    assert_eq!(
        verdict,
        Verdict::Hold(HoldReason::Count {
            destructive: 8,
            tracked_before: 10
        }),
        "denominator is the tracked count at the last announcement, not the current 2"
    );
    match b.tick(t(12.0), bid(5)) {
        Ticked::Paused {
            first,
            snapshot,
            status,
        } => {
            assert!(first);
            assert_eq!(snapshot.len(), 1);
            assert_eq!(snapshot[0].id, bid(5));
            assert_eq!(snapshot[0].summary.dels, 8);
            assert!(matches!(status, FolderStatus::Paused { batch, .. } if batch == bid(5)));
        }
        other => panic!("expected a pause, got {other:?}"),
    }
    assert_eq!(b.paused().unwrap().batch, bid(5));
    assert_eq!(b.due(), None, "the window closed");
    assert_eq!(b.index().pending_count(), 8, "nothing announced");
    assert_eq!(b.index().unannounced().len(), 8);

    // The user puts 7 files back: the set would now pass, but paused
    // means paused.
    for i in 0..7 {
        b.scanned(t(20.0), p(&format!("f{i:02}")), file(1, 1));
    }
    match b.tick(t(22.0), bid(6)) {
        Ticked::Paused {
            first,
            snapshot,
            status,
        } => {
            assert!(!first);
            assert!(snapshot.is_empty());
            assert_eq!(
                status,
                FolderStatus::PausedRecheck {
                    batch: bid(5),
                    would_pass: true,
                    summary: b.paused().unwrap().summary,
                }
            );
        }
        other => panic!("expected a recheck, got {other:?}"),
    }
    assert!(b.paused().unwrap().would_pass);
    assert_eq!(b.paused().unwrap().batch, bid(5), "the reserved id is kept");

    assert_eq!(b.approve(t(30.0), bid(9)), Approved::Unknown);
    match b.approve(t(30.0), bid(5)) {
        Approved::Sent(batches) => {
            assert_eq!(batches[0].id, bid(5), "sent under the reserved id");
            assert_eq!(batches[0].summary.dels, 1);
            assert_eq!(batches[0].summary.mods, 0, "7 restored: touches");
        }
        other => panic!("expected Sent, got {other:?}"),
    }
    assert!(b.paused().is_none());
    assert_eq!(b.index().pending_count(), 0);
}

#[test]
fn receiver_holds_and_quarantines_raw_entries_that_later_versions_join() {
    let (mut a, mut b) = a_and_b(10, tight());
    for i in 0..8 {
        a.scanned(t(10.0), p(&format!("f{i:02}")), ScanState::Absent);
    }
    let dels = a.form_batches(t(12.0), bid(3)).remove(0);
    let r = b.receive(t(12.0), &dels);
    assert_eq!(
        r.held,
        Some(HoldReason::Count {
            destructive: 8,
            tracked_before: 10
        })
    );
    assert!(matches!(r.decision, Decision::Held { .. }));
    assert_eq!(r.summary.dels, 8);
    assert!(b.wants().is_empty(), "nothing applied");
    assert_eq!(b.index().tracked_count(), 10);
    let held = b.quarantine().get(bid(3)).unwrap();
    assert_eq!(held.entries.len(), 8);
    assert_eq!(held.source, node(1));
    assert!(
        entries_of(held).iter().all(|e| e.deleted),
        "raw entries, as received"
    );
    assert_eq!(
        b.index().peer_seq(node(1)),
        dels.seq_high,
        "held still acknowledges"
    );

    // The same versions relayed by C are still held, and nothing else
    // is left for the brake.
    let mut relayed = dels.clone();
    relayed.id = bid(4);
    relayed.source = node(3);
    let r = b.receive(t(13.0), &relayed);
    assert_eq!(r.joined, 8);
    assert_eq!(r.decision, Decision::Accepted, "the empty remainder passes");
    assert!(r.set.is_empty());
    assert_eq!(b.quarantine().len(), 1);

    // A re-creates one file: it dominates the quarantined tombstone and
    // joins the item, replacing the stored entry.
    a.scanned(t(14.0), p("f00"), file(7, 7));
    let recreate = a.form_batches(t(16.0), bid(5)).remove(0);
    let r = b.receive(t(16.0), &recreate);
    assert_eq!(r.joined, 1);
    assert!(b.wants().is_empty());
    let stored = b.quarantine().get(bid(3)).unwrap().entries.get(&p("f00")).unwrap();
    assert!(!stored.deleted);
    assert_eq!(stored.hash, hash(7));
    assert_eq!(b.quarantine().versions_at(&p("f00")).len(), 2);

    // Unrelated paths from the same source still sync.
    a.scanned(t(17.0), p("f09"), file(9, 9));
    let other = a.form_batches(t(19.0), bid(6)).remove(0);
    let r = b.receive(t(19.0), &other);
    assert_eq!((r.joined, r.decision), (0, Decision::Accepted));
    assert_eq!(b.wants().len(), 1);
    commit_all(&mut b, t(20.0));

    // Approve re-classifies the stored entries as they stand now.
    match b.approve(t(21.0), bid(3)) {
        Approved::Released(Some(set)) => {
            assert_eq!(set.batch, bid(3));
            assert_eq!(set.items.len(), 8);
            let f00 = set.items.iter().find(|i| i.path() == &p("f00")).unwrap();
            assert_eq!(
                f00.mode(),
                ApplyMode::Fetch,
                "the re-created file, not the tombstone"
            );
            assert_eq!(f00.incoming().hash, hash(7));
            assert_eq!(
                set.items
                    .iter()
                    .filter(|i| i.mode() == ApplyMode::Direct)
                    .count(),
                7
            );
        }
        other => panic!("expected a release, got {other:?}"),
    }
    assert!(b.quarantine().is_empty());
    assert_eq!(b.wants().len(), 8, "one want per released path");
    assert_eq!(b.approve(t(22.0), bid(3)), Approved::Unknown);
}

#[test]
fn a_version_already_wanted_is_not_rebraked_when_relayed() {
    // A announces a file; B accepts it and starts fetching. C relays the
    // same version inside a batch that trips B's brake: the relayed copy
    // must only add C as a source, not be quarantined under B's own fetch.
    let (mut a, mut b) = a_and_b(10, tight());
    a.scanned(t(10.0), p("new"), file(7, 7));
    let batch = a.form_batches(t(12.0), bid(3)).remove(0);
    let r = b.receive(t(12.0), &batch);
    assert_eq!(r.decision, Decision::Accepted);
    let wanted = b.wants().get(&p("new")).unwrap().version().clone();
    b.dispatch(t(12.0), &lan(&[1]));
    assert!(b.in_flight(&p("new")));

    // C's batch: the same version of "new" plus eight deletes.
    let mut c = folder_with(Rules::default(), 3, "charlie");
    for i in 0..10 {
        let e = b
            .index()
            .get(&p(&format!("f{i:02}")))
            .unwrap()
            .entry
            .clone();
        c.adopt(t(13.0), e);
    }
    c.adopt(t(13.0), batch.entries[0].clone());
    c.form_batches(t(14.0), bid(4));
    for i in 0..8 {
        c.scanned(t(15.0), p(&format!("f{i:02}")), ScanState::Absent);
    }
    let mut relay = c.form_batches(t(17.0), bid(5)).remove(0);
    relay.entries.push(batch.entries[0].clone()); // the relayed "new"
    relay.seq_high += 1;
    let r = b.receive(t(17.0), &relay);
    assert_eq!(r.already_wanted, 1);
    assert_eq!(
        r.held,
        Some(HoldReason::Count {
            destructive: 8,
            tracked_before: 10
        })
    );
    assert!(
        b.quarantine().versions_at(&p("new")).is_empty(),
        "the wanted version is not quarantined"
    );
    let want = b.wants().get(&p("new")).unwrap();
    assert_eq!(want.version(), &wanted);
    assert!(want.sources.contains(&node(3)), "C named as a source");
    assert!(b.in_flight(&p("new")), "the fetch goes on");
    // The commit lands without touching the quarantine.
    b.fetched(t(20.0), &p("new"), &wanted, FetchReport::Done);
    b.dispatch(t(18.0), &lan(&[1]));
    assert_eq!(
        b.applied(t(19.0), &p("new"), &wanted, ApplyOutcome::Done)
            .len(),
        1
    );
    assert_eq!(b.quarantine().len(), 1, "the deletes stay held");
}

#[test]
fn frozen_edits_meet_the_brake_when_the_folder_unpauses() {
    // B edits eight files and pauses (8 mods of 10). A edits the same
    // eight while B is paused: frozen. At approve they resolve as eight
    // conflicts, eight mods against B's live copies: held, not applied.
    let (mut a, mut b) = a_and_b(10, tight());
    for i in 0..8 {
        b.scanned(t(10.0), p(&format!("f{i:02}")), file(2, 20));
    }
    assert!(matches!(
        b.tick(t(12.0), bid(5)),
        Ticked::Paused { first: true, .. }
    ));
    for i in 0..8 {
        a.scanned(t(13.0), p(&format!("f{i:02}")), file(3, 30));
    }
    let batch = a.form_batches(t(15.0), bid(6)).remove(0);
    let r = b.receive(t(15.0), &batch);
    assert_eq!(r.frozen, 8);
    assert!(b.wants().is_empty());
    assert!(matches!(b.approve(t(20.0), bid(5)), Approved::Sent(_)));
    assert!(b.deferred().is_empty(), "unfrozen");
    assert!(b.wants().is_empty(), "held, not wanted");
    let held = b.quarantine().get(bid(6)).unwrap();
    assert_eq!(held.entries.len(), 8);
    assert_eq!(held.source, node(1));
    assert!(matches!(
        held.reason,
        HoldReason::Count {
            destructive: 8,
            tracked_before: 10
        }
    ));
    let statuses = b.take_statuses();
    assert!(
        matches!(statuses.as_slice(), [FolderStatus::Held { batch, paths: 8, .. }] if *batch == bid(6))
    );
    // Approving the held item applies the eight conflicts.
    match b.approve(t(21.0), bid(6)) {
        Approved::Released(Some(set)) => assert_eq!(set.items.len(), 8),
        other => panic!("expected a release, got {other:?}"),
    }
    assert_eq!(b.wants().len(), 8);
}

#[test]
fn frozen_entries_wait_for_unpause_through_scans_and_commits() {
    // B edits eight files and pauses. A's edit of f00 arrives frozen.
    // Scans of f00, a full scan bracket and a commit elsewhere must not

    let (mut a, mut b) = a_and_b(10, tight());
    for i in 0..8 {
        b.scanned(t(10.0), p(&format!("f{i:02}")), file(2, 20));
    }
    assert!(matches!(b.tick(t(12.0), bid(5)), Ticked::Paused { .. }));
    a.scanned(t(13.0), p("f00"), file(3, 30));
    let batch = a.form_batches(t(15.0), bid(6)).remove(0);
    assert_eq!(b.receive(t(15.0), &batch).frozen, 1);

    b.scanned(t(16.0), p("f00"), ScanState::Unchanged);
    b.scan_started();
    for i in 0..10 {
        b.scanned(t(17.0), p(&format!("f{i:02}")), ScanState::Unchanged);
    }
    assert!(b.scan_finished(t(18.0)).unwrap().is_empty());
    let frozen: Vec<&Deferred> = b.deferred();
    assert_eq!(frozen.len(), 1, "still frozen after the scans");
    assert_eq!(frozen[0].reason, DeferredReason::Frozen);
    assert!(b.wants().is_empty(), "nothing wanted while paused");

    assert!(matches!(b.approve(t(20.0), bid(5)), Approved::Sent(_)));
    assert!(b.deferred().is_empty(), "the unpause thaws it");
    assert_eq!(b.wants().len(), 1, "one conflict, wanted");
}

#[test]
fn frozen_entries_of_a_held_batch_join_it_at_unpause() {
    // B edits seven files and pauses. A's batch edits the same seven
    // (frozen) and deletes the other three (held: three of ten). At
    // unpause the seven belong with the held batch, not in front of the

    let (mut a, mut b) = a_and_b(10, tight());
    for i in 0..7 {
        b.scanned(t(10.0), p(&format!("f{i:02}")), file(2, 20));
    }
    assert!(matches!(b.tick(t(12.0), bid(5)), Ticked::Paused { .. }));
    for i in 0..7 {
        a.scanned(t(13.0), p(&format!("f{i:02}")), file(3, 30));
    }
    for i in 7..10 {
        a.scanned(t(13.0), p(&format!("f{i:02}")), ScanState::Absent);
    }
    let batch = a.form_batches(t(15.0), bid(6)).remove(0);
    let r = b.receive(t(15.0), &batch);
    assert_eq!(r.frozen, 7);
    assert!(matches!(r.decision, Decision::Held { .. }));
    assert_eq!(b.quarantine().get(bid(6)).unwrap().entries.len(), 3);
    b.take_statuses();

    assert!(matches!(b.approve(t(20.0), bid(5)), Approved::Sent(_)));
    assert!(b.deferred().is_empty(), "thawed");
    assert!(
        b.wants().is_empty(),
        "nothing wanted: the batch is under review"
    );
    let held = b.quarantine().get(bid(6)).unwrap();
    assert_eq!(held.entries.len(), 10, "the seven joined the three");
    assert!(
        entries_of(held).iter().all(|e| e.modified_by == node(1)),
        "held as received from A, not as B's merge"
    );
    assert_eq!(
        b.take_statuses(),
        vec![FolderStatus::JoinedHeld {
            batch: bid(6),
            count: 7
        }]
    );
    match b.approve(t(21.0), bid(6)) {
        Approved::Released(Some(set)) => assert_eq!(set.items.len(), 10),
        other => panic!("expected a release, got {other:?}"),
    }
    assert_eq!(b.wants().len(), 10);
}

#[test]
fn a_scan_bracket_reconsiders_a_deferred_entry_at_an_unrecorded_path() {
    // A adds z; B's commit of it fails ChangedUnderneath (say the host
    // lost the temp file). B has no record of z and no file at z, so no
    // scan will ever report z; the bracket's end must stand in for the
    // observation, or the entry waits forever.
    let (mut a, mut b) = a_and_b(10, tight());
    a.scanned(t(10.0), p("z"), file(3, 30));
    let batch = a.form_batches(t(12.0), bid(6)).remove(0);
    assert_eq!(b.receive(t(12.0), &batch).decision, Decision::Accepted);
    let v = b.wants().get(&p("z")).unwrap().version().clone();
    let (steps, _) = b.dispatch(t(13.0), &lan(&[1]));
    assert!(matches!(&steps[0], HostStep::Fetch { .. }));
    b.fetched(t(20.0), &p("z"), &v, FetchReport::Done);
    let (steps, _) = b.dispatch(t(14.0), &lan(&[1]));
    assert!(matches!(&steps[0], HostStep::Write { .. }));
    assert!(
        b.applied(t(15.0), &p("z"), &v, ApplyOutcome::ChangedUnderneath)
            .is_empty()
    );
    assert_eq!(b.deferred().len(), 1);
    assert!(b.wants().is_empty());

    b.scan_started();
    for i in 0..10 {
        b.scanned(t(16.0), p(&format!("f{i:02}")), ScanState::Unchanged);
    }
    assert!(
        b.scan_finished(t(17.0)).unwrap().is_empty(),
        "nothing tombstoned"
    );
    assert!(
        b.deferred().is_empty(),
        "reconsidered at the bracket's end"
    );
    let want = b.wants().get(&p("z")).unwrap();
    assert_eq!(want.version(), &v, "wanted again");
    assert!(!want.fetched, "a fresh want fetches again");
}

#[test]
fn writing_our_own_conflict_copy_reclassifies_a_want_for_a_peers_copy() {
    // B holds L for "f". C, another L-holder, resolved the same conflict
    // first and announced its copy of L at the conflict path. B wants
    // that copy (a fetch), then B's own commit of W lands and writes B's
    // copy record at the very same path. The want must meet B's record
    // as an identical-content merge, not stay a fetch whose commit would
    // land over B's own write.
    let (mut a, mut b) = a_and_b(3, Rules::default());
    b.scanned(t(10.0), p("f00"), file(5, 50)); // B's L
    let loser = b.index().get(&p("f00")).unwrap().entry.clone();
    let copy_path = conflict_copy_name(&loser).unwrap();
    a.scanned(t(11.0), p("f00"), file(6, 60)); // A's W, newer
    let batch = a.form_batches(t(13.0), bid(6)).remove(0);
    assert_eq!(b.receive(t(13.0), &batch).decision, Decision::Accepted);
    let want = b.wants().get(&p("f00")).unwrap();
    let w_version = want.version().clone();
    assert_eq!(want.conflict.as_ref().map(|c| &c.path), Some(&copy_path));

    // C's copy of the same L arrives: same content as B's future copy,
    // C's own version.
    let mut c_copy = loser.clone();
    c_copy.path = copy_path.clone();
    c_copy.version = Version::empty().incremented(node(3));
    c_copy.modified_by = node(3);
    c_copy.prev_hash = ContentHash::empty();
    let mut c_batch = batch.clone();
    c_batch.id = bid(7);
    c_batch.source = node(3);
    c_batch.entries = vec![c_copy.clone()];
    c_batch.seq_low = 0;
    c_batch.seq_high = 1;
    assert_eq!(b.receive(t(14.0), &c_batch).decision, Decision::Accepted);
    assert_eq!(
        b.wants().get(&copy_path).unwrap().mode,
        ApplyMode::Fetch,
        "C's copy is wanted as content to fetch"
    );

    // B fetches W and commits it, displacing L to the copy path.
    let (steps, _) = b.dispatch(t(15.0), &lan(&[1, 3]));
    assert!(
        steps
            .iter()
            .any(|s| matches!(s, HostStep::Fetch { path, .. } if path == &p("f00")))
    );
    b.fetched(t(20.0), &p("f00"), &w_version, FetchReport::Done);
    let (steps, _) = b.dispatch(t(16.0), &lan(&[1, 3]));
    assert!(steps.iter().any(|s| matches!(s, HostStep::Write { path, displace: Displace::ConflictCopy(c), .. } if path == &p("f00") && c == &copy_path)));
    let written = b.applied(t(17.0), &p("f00"), &w_version, ApplyOutcome::Done);
    assert_eq!(written.len(), 2, "W adopted and B's copy recorded");
    let own_copy = b.index().get(&copy_path).unwrap().entry.clone();
    assert_eq!(own_copy.modified_by, node(2));

    // The want at the copy path was re-classified against B's record:
    // identical content, so it is a merge that dominates B's copy, not
    // a fetch of C's bytes.
    let want = b.wants().get(&copy_path).expect("still wanted, as a merge");
    assert_ne!(want.mode, ApplyMode::Fetch);
    assert!(want.version().dominates(&own_copy.version));
    assert!(want.version().dominates(&c_copy.version));
    // A late report for the old fetch matches nothing.
    assert!(
        b.applied(t(18.0), &copy_path, &c_copy.version, ApplyOutcome::Done)
            .is_empty()
    );
    // Dispatch adopts the merge index-only; the record dominates both.
    let (_, adopted) = b.dispatch(t(19.0), &lan(&[1, 3]));
    assert_eq!(adopted.len(), 1);
    let record = b.index().get(&copy_path).unwrap();
    assert!(record.entry.version.dominates(&c_copy.version));
    assert!(b.wants().get(&copy_path).is_none());
}

#[test]
fn deny_bumps_this_machines_copies_over_the_quarantine() {
    let (mut a, mut b) = a_and_b(10, tight());
    for i in 0..8 {
        a.scanned(t(10.0), p(&format!("f{i:02}")), ScanState::Absent);
    }
    let dels = a.form_batches(t(12.0), bid(3)).remove(0);
    b.receive(t(12.0), &dels);
    let quarantined: Vec<Version> = b.quarantine().versions_at(&p("f03"));
    let held_stamp = b.quarantine().max_stamp_at(&p("f03")).unwrap();
    assert_eq!(b.deny(t(13.0), bid(9)), None);
    let changes = b.deny(t(13.0), bid(3)).unwrap();
    assert_eq!(changes.len(), 8);
    for c in &changes {
        let e = &c.record.entry;
        assert!(!e.deleted, "B's copies win");
        assert!(
            e.stamp > held_stamp,
            "the bump ranks above the tombstones it dominates"
        );
        assert!(e.is_metadata_only(), "content unchanged");
        assert_eq!(e.modified_by, node(2));
        assert_eq!(c.kind, ChangeKind::Modify);
        for q in b.quarantine().versions_at(&e.path) {
            assert!(e.version.dominates(&q));
        }
    }
    let f03 = &b.index().get(&p("f03")).unwrap().entry;
    for q in &quarantined {
        assert!(f03.version.dominates(q));
    }
    assert!(b.quarantine().is_empty());
    assert_eq!(b.index().pending_count(), 8);
    assert!(b.due().is_some(), "the bumps go out in the next batch");
    let out = b.form_batches(t(16.0), bid(4)).remove(0);
    assert_eq!(out.entries.len(), 8);
    assert_eq!(
        out.summary,
        Summary::default(),
        "touches: invisible to the brake"
    );

    // On A the bumps dominate its tombstones: eight adds, which do not
    // count, so A gets its files back.
    let r = a.receive(t(16.0), &out);
    assert_eq!(r.decision, Decision::Accepted);
    assert_eq!(r.summary.adds, 8);
    assert!(r.set.items.iter().all(|i| i.mode() == ApplyMode::Fetch));
}

#[test]
fn revert_restores_announced_records_trashes_files_and_refetches() {
    let (_, mut b) = a_and_b(10, tight());
    let announced: Vec<IndexRecord> = b.index().records().into_iter().cloned().collect();
    for i in 0..8 {
        b.scanned(t(10.0), p(&format!("f{i:02}")), ScanState::Absent);
    }
    b.scanned(t(10.0), p("f08"), file(5, 5)); // modified
    b.scanned(t(10.0), p("junk"), file(6, 6)); // new
    assert_eq!(b.revert(t(11.0)), None, "not paused yet");
    assert!(matches!(
        b.tick(t(12.0), bid(5)),
        Ticked::Paused { first: true, .. }
    ));
    let out = b.revert(t(13.0)).unwrap();
    assert_eq!(out.batch, bid(5));
    assert_eq!(
        out.trash,
        vec![p("f08"), p("junk")],
        "deleted paths have nothing to trash"
    );
    assert_eq!(out.reverted.len(), 10, "one write per pending path");
    let restored: Vec<&IndexRecord> = out
        .reverted
        .iter()
        .filter_map(|r| r.restored.as_ref())
        .collect();
    let untouched: Vec<&IndexRecord> = announced
        .iter()
        .filter(|r| r.entry.path != p("f09"))
        .collect();
    assert_eq!(restored, untouched, "f09 was never pending");
    assert!(
        out.reverted
            .iter()
            .any(|r| r.path == p("junk") && r.restored.is_none()),
        "a path peers never saw is reported removed"
    );
    assert_eq!(
        out.refetch, 9,
        "eight deleted and one modified are fetched again"
    );
    assert!(b.paused().is_none());
    assert_eq!(b.index().pending_count(), 0);
    assert_eq!(b.index().get(&p("junk")), None);
    let now: Vec<IndexRecord> = b.index().records().into_iter().cloned().collect();
    assert_eq!(now, announced, "every record back exactly, seq included");
    assert!(b.index().unannounced().is_empty(), "nothing to re-announce");
    assert_eq!(b.wants().len(), 9);
    assert!(
        b.wants()
            .iter().into_iter()
            .all(|w| w.mode == ApplyMode::Fetch && w.conflict.is_none() && w.restoring)
    );
    assert!(b.in_flight(&p("f03")));

    // In flight: the trash move is not a deletion, and a full scan that
    // does not see the files does not tombstone them.
    assert_eq!(
        b.scanned(t(14.0), p("f03"), ScanState::Absent),
        Scanned::default()
    );
    b.scan_started();
    b.scanned(t(15.0), p("f09"), ScanState::Unchanged);
    assert!(b.scan_finished(t(16.0)).unwrap().is_empty());
    assert_eq!(b.index().tracked_count(), 10);
    // Once the host re-fetches, the path leaves in flight.
    commit_all(&mut b, t(17.0));
    assert!(!b.in_flight(&p("f03")));
    assert_eq!(b.revert(t(18.0)), None);
}

#[test]
fn frozen_paths_keep_every_incoming_version_until_unpause() {
    let (mut a, mut b) = a_and_b(10, tight());
    for i in 0..8 {
        b.scanned(t(10.0), p(&format!("f{i:02}")), ScanState::Absent);
    }
    assert!(matches!(b.tick(t(12.0), bid(5)), Ticked::Paused { .. }));
    // A edits f00 twice and adds z while B is paused.
    a.scanned(t(13.0), p("f00"), file(3, 3));
    a.scanned(t(13.0), p("z"), file(4, 4));
    let first = a.form_batches(t(15.0), bid(6)).remove(0);
    a.scanned(t(16.0), p("f00"), file(5, 5));
    let second = a.form_batches(t(18.0), bid(7)).remove(0);
    let r = b.receive(t(15.0), &first);
    assert_eq!(
        (r.frozen, r.set.items.len()),
        (1, 1),
        "f00 frozen, z applied"
    );
    assert_eq!(r.decision, Decision::Accepted);
    let r = b.receive(t(18.0), &second);
    assert_eq!(r.frozen, 1);
    let frozen: Vec<&Deferred> = b.deferred();
    assert_eq!(frozen.len(), 2, "both kept, in arrival order");
    assert_eq!(frozen[0].entry.hash, hash(3));
    assert_eq!(frozen[1].entry.hash, hash(5));
    assert!(frozen.iter().all(|d| d.reason == DeferredReason::Frozen));
    assert_eq!(
        b.index().peer_seq(node(1)),
        second.seq_high,
        "acknowledged all the same"
    );

    assert!(matches!(b.approve(t(20.0), bid(5)), Approved::Sent(_)));
    assert!(b.deferred().is_empty());
    // Both versions were classified against B's tombstone: the first is
    // a conflict (delete vs modify) resolving to A's content, the second
    // dominates whatever the first produced and is classified too.
    // One want per path: the second version dominated the first and
    // replaced it.
    let want = b.wants().get(&p("f00")).unwrap();
    assert!(!want.entry.deleted);
    assert_eq!(want.entry.hash, hash(5));
}

#[test]
fn rule_changes_report_and_release_nothing() {
    let (mut a, mut b) = a_and_b(10, tight());
    for i in 0..8 {
        a.scanned(t(10.0), p(&format!("f{i:02}")), ScanState::Absent);
    }
    let dels = a.form_batches(t(12.0), bid(3)).remove(0);
    b.receive(t(12.0), &dels);
    for i in 0..8 {
        b.scanned(t(13.0), p(&format!("f{i:02}")), file(2, 2));
    }
    assert!(matches!(b.tick(t(15.0), bid(8)), Ticked::Paused { .. }));
    let loose = Rules {
        hold_count: 0,
        ..Rules::default()
    };
    let statuses = b.rules_changed(loose.clone());
    assert_eq!(
        statuses,
        [
            FolderStatus::RulesRecheck {
                batch: bid(3),
                would_pass: true
            },
            FolderStatus::RulesRecheck {
                batch: bid(8),
                would_pass: true
            },
        ]
    );
    assert_eq!(b.rules(), &loose);
    assert_eq!(b.quarantine().len(), 1, "still held");
    assert!(b.paused().unwrap().would_pass);
    assert!(b.paused().is_some(), "still paused");
    assert!(b.wants().is_empty());
}

fn lan(peers: &[u8]) -> OrdMap<NodeId, Tier> {
    let mut out = OrdMap::new();
    for n in peers {
        out.insert(node(*n), Tier::Lan);
    }
    out
}

#[test]
fn have_up_to_marks_catch_up_of_announced_records_only() {
    let mut a = folder_with(Rules::default(), 1, "alpha");
    for i in 0..5 {
        a.scanned(t(1.0), p(&format!("f{i}")), file(1, 1));
    }
    a.form_batches(t(3.0), bid(1));
    a.scanned(t(4.0), p("pending"), file(2, 2));
    assert!(!a.wake_now());
    a.acknowledged(node(2), 4);
    a.have_up_to(node(2), 2);
    assert_eq!(
        a.acked_by(node(2)),
        2,
        "have_up_to replaces the ack, even downwards"
    );
    assert!(a.wake_now());
    let (batches, used) = a.catchup_batches(t(5.0), bid(9));
    assert_eq!(used, 1);
    assert!(!a.wake_now());
    assert_eq!(batches.len(), 1);
    let (peer, list) = &batches[0];
    assert_eq!(*peer, node(2));
    assert_eq!(list.len(), 1);
    let b = &list[0];
    assert_eq!(b.id, bid(9));
    let paths: Vec<_> = b.entries.iter().map(|e| e.path.as_str()).collect();
    assert_eq!(
        paths,
        ["f2", "f3", "f4"],
        "records above seq 2, announced only"
    );
    assert_eq!(b.seq_high, 5);
    assert_eq!(
        b.summary,
        Summary::default(),
        "already-announced records carry no counts"
    );
    assert_eq!(
        a.index().pending_count(),
        1,
        "the pending record waits for the live path"
    );
    // A peer that holds everything gets nothing.
    a.have_up_to(node(3), 5);
    let (batches, used) = a.catchup_batches(t(6.0), bid(10));
    assert!(batches.is_empty());
    assert_eq!(used, 0);
}

#[test]
fn catch_up_splits_at_ten_thousand_on_seq() {
    let mut a = folder_with(Rules::default(), 1, "alpha");
    let n = MAX_BATCH_ENTRIES + 5;
    for i in 0..n {
        a.scanned(t(1.0), p(&format!("f{i:05}")), file(1, i as i64));
    }
    a.form_batches(t(3.0), bid(1));
    a.have_up_to(node(2), 0);
    let (batches, used) = a.catchup_batches(t(5.0), bid(9));
    assert_eq!(used, 2);
    let list = &batches[0].1;
    assert_eq!(list.len(), 2);
    assert_eq!(list[0].id, bid(9));
    assert_eq!(list[1].id, bid(9).successor(1));
    assert_eq!(list[0].entries.len(), MAX_BATCH_ENTRIES);
    assert_eq!(list[0].seq_high, MAX_BATCH_ENTRIES as u64);
    assert_eq!(list[1].entries.len(), 5);
    assert_eq!(list[1].seq_high, n as u64);
}

#[test]
fn a_paused_pending_set_stays_out_of_catch_up() {
    let (_, mut b) = a_and_b(10, tight());
    for i in 0..8 {
        b.scanned(t(10.0), p(&format!("f{i:02}")), ScanState::Absent);
    }
    assert!(matches!(
        b.tick(t(12.0), bid(5)),
        Ticked::Paused { first: true, .. }
    ));
    b.have_up_to(node(1), 0);
    let (batches, _) = b.catchup_batches(t(13.0), bid(6));
    let entries = &batches[0].1[0].entries;
    assert_eq!(entries.len(), 10, "the announced adds only");
    assert!(
        entries.iter().all(|e| !e.deleted),
        "no pending tombstone leaks"
    );
}

#[test]
fn accepted_items_become_wants_and_the_host_is_driven_to_completion() {
    let (mut a, mut b) = a_and_b(3, Rules::default());
    a.scanned(t(10.0), p("d"), observed(Kind::Dir, 0, 0, false));
    a.scanned(t(10.0), p("d/new"), file(7, 7));
    a.scanned(t(10.0), p("f00"), file(8, 8));
    a.scanned(t(10.0), p("f01"), file(1, 9)); // touch
    a.scanned(t(10.0), p("f02"), ScanState::Absent);
    let batch = a.form_batches(t(12.0), bid(3)).remove(0);
    let r = b.receive(t(12.0), &batch);
    assert_eq!(r.decision, Decision::Accepted);
    assert_eq!(b.wants().len(), 5);
    let (steps, adopted) = b.dispatch(t(12.0), &lan(&[1]));
    assert!(adopted.is_empty());
    let kinds: Vec<&str> = steps
        .iter()
        .map(|s| match s {
            HostStep::Fetch { .. } => "fetch",
            HostStep::Write { .. } => "write",
            HostStep::Remove { .. } => "remove",
            HostStep::SetMeta { .. } => "setmeta",
        })
        .collect();
    assert_eq!(
        kinds,
        ["fetch", "fetch", "write", "setmeta", "remove"],
        "fetches first, then commits: d, f01, f02"
    );
    assert!(
        matches!(&steps[2], HostStep::Write { path, expected: None, displace: Displace::Trash, .. } if path == &p("d"))
    );
    assert!(
        matches!(&steps[3], HostStep::SetMeta { path, mtime_ns: 9, executable: false } if path == &p("f01"))
    );
    assert!(
        matches!(&steps[4], HostStep::Remove { path, expected: Some(Expected { kind: Kind::File, size: 10, mtime_ns: 1 }), displace: Displace::Trash } if path == &p("f02"))
    );
    assert_eq!(
        b.wants().get(&p("d/new")).unwrap().state,
        WantState::Fetching {
            from: node(1),
            deadline: t(72.0)
        }
    );
    assert!(b.in_flight(&p("d/new")));
    commit_all(&mut b, t(13.0));
    assert!(b.wants().is_empty());
    assert_eq!(
        b.index().tracked_count(),
        3,
        "f00, f01 and d/new; f02 gone; d is a directory"
    );
    assert_eq!(b.index().get(&p("d/new")).unwrap().entry.hash, hash(7));
    assert!(b.index().get(&p("f02")).unwrap().entry.deleted);
}

#[test]
fn a_deferred_want_is_observable_and_a_local_edit_reclassifies_it() {
    let rules = Rules {
        relay_limit: 5,
        ..Rules::default()
    };
    let (mut a, mut b) = a_and_b(1, rules);
    a.scanned(t(10.0), p("big"), file(7, 7)); // size 10 > relay limit 5
    let batch = a.form_batches(t(12.0), bid(3)).remove(0);
    b.receive(t(12.0), &batch);
    let mut relay: OrdMap<NodeId, Tier> = OrdMap::new();
    relay.insert(node(1), Tier::Relay);
    assert!(b.dispatch(t(12.0), &relay).0.is_empty());
    assert_eq!(
        b.wants().get(&p("big")).unwrap().state,
        WantState::Deferred { need: Tier::Direct }
    );
    assert!(!b.in_flight(&p("big")), "deferred is observable");
    // The user creates their own "big": a real local change, announced.
    let out = b.scanned(t(13.0), p("big"), file(9, 9));
    assert!(out.change.is_some());
    assert_eq!(b.index().pending_count(), 1);
    let want = b.wants().get(&p("big")).unwrap();
    assert!(
        want.entry.version.dominates(&batch.entries[0].version),
        "the want is now the conflict's M"
    );
    assert_eq!(want.entry.hash, hash(9), "the local edit is newer and wins");
    assert_eq!(want.mode, ApplyMode::IndexOnly, "so nothing to fetch");
    let (_, adopted) = b.dispatch(t(13.0), &relay);
    assert_eq!(adopted.len(), 1);
    assert!(b.wants().is_empty());
    let sent = b.form_batches(t(15.0), bid(4)).remove(0);
    assert!(
        sent.entries
            .iter()
            .any(|e| e.path == p("big") && e.hash == hash(9))
    );
}

#[test]
fn a_restoring_want_ignores_absent_but_a_new_file_cancels_it() {
    let (_, mut b) = a_and_b(
        2,
        Rules {
            hold_count: 1,
            hold_pct: 0,
            ..Rules::default()
        },
    );
    b.scanned(t(10.0), p("f00"), ScanState::Absent);
    b.scanned(t(10.0), p("f01"), ScanState::Absent);
    assert!(matches!(b.tick(t(12.0), bid(5)), Ticked::Paused { .. }));
    b.revert(t(13.0)).unwrap();
    // Nobody connected: without source, observable, but Absent is the trash move.
    assert!(b.dispatch(t(13.0), &OrdMap::new()).0.is_empty());
    assert_eq!(b.wants().get(&p("f00")).unwrap().state, WantState::NoSource);
    assert!(!b.in_flight(&p("f00")));
    assert_eq!(
        b.scanned(t(14.0), p("f00"), ScanState::Absent),
        Scanned::default()
    );
    b.scan_started();
    assert!(
        b.scan_finished(t(15.0)).unwrap().is_empty(),
        "restoring paths skip the deletion pass"
    );
    assert_eq!(b.index().tracked_count(), 2);
    // A real file appears at f01: a local change that cancels the want.
    let out = b.scanned(t(16.0), p("f01"), file(9, 9));
    assert!(out.change.is_some());
    assert!(b.wants().get(&p("f01")).is_none(), "cancelled");
    assert!(b.wants().get(&p("f00")).is_some());
    assert_eq!(b.index().get(&p("f01")).unwrap().entry.hash, hash(9));
}

#[test]
fn a_restored_path_leaves_flight_only_when_its_commit_lands() {
    let (_, mut b) = a_and_b(
        1,
        Rules {
            hold_count: 1,
            hold_pct: 0,
            ..Rules::default()
        },
    );
    b.scanned(t(10.0), p("f00"), file(5, 5));
    assert!(matches!(b.tick(t(12.0), bid(5)), Ticked::Paused { .. }));
    b.revert(t(13.0)).unwrap();
    let v = b.wants().get(&p("f00")).unwrap().version().clone();
    assert_eq!(b.wants().get(&p("f00")).unwrap().state, WantState::Wanted);
    assert!(b.in_flight(&p("f00")));
    let (steps, _) = b.dispatch(t(13.0), &lan(&[1]));
    assert!(matches!(&steps[0], HostStep::Fetch { from, .. } if *from == node(1)));
    assert!(b.in_flight(&p("f00")));
    b.fetched(t(20.0), &p("f00"), &v, FetchReport::Done);
    assert!(b.in_flight(&p("f00")));
    let (steps, _) = b.dispatch(t(14.0), &lan(&[1]));
    assert!(matches!(
        &steps[0],
        HostStep::Write {
            expected: Some(_),
            ..
        }
    ));
    assert!(b.in_flight(&p("f00")));
    assert_eq!(b.applied(t(15.0), &p("f00"), &v, ApplyOutcome::Done).len(), 1);
    assert!(!b.in_flight(&p("f00")));
    assert!(b.wants().is_empty());
}

#[test]
fn a_persisted_want_comes_back_wanted_and_fetches() {
    let (mut a, mut b) = a_and_b(1, Rules::default());
    a.scanned(t(10.0), p("n"), file(7, 7));
    let batch = a.form_batches(t(12.0), bid(3)).remove(0);
    b.receive(t(12.0), &batch);
    b.dispatch(t(12.0), &lan(&[1]));
    let persisted = b.wants().get(&p("n")).unwrap().clone();
    assert!(matches!(persisted.state, WantState::Fetching { .. }));
    // A fresh engine after a restart.
    let mut c = folder_with(Rules::default(), 2, "bravo");
    c.restore_want(persisted);
    assert_eq!(c.wants().get(&p("n")).unwrap().state, WantState::Wanted);
    let (steps, _) = c.dispatch(t(20.0), &lan(&[1]));
    assert!(matches!(&steps[0], HostStep::Fetch { path, .. } if path == &p("n")));
}

/// A scripted host for the want-list properties.
#[derive(Clone, Debug)]
struct Script {
    outcomes: Vec<FetchReport>,
}

impl Script {
    fn next(&mut self) -> FetchReport {
        if self.outcomes.is_empty() {
            FetchReport::Done
        } else {
            self.outcomes.remove(0)
        }
    }
}

fn drive(
    f: &mut FolderState,
    peers: &OrdMap<NodeId, Tier>,
    script: &mut Script,
    rules: &Rules,
) -> Vec<HostStep> {
    let mut all = Vec::new();
    for round in 0..200 {
        let now = t(100.0 + round as f64);
        let (steps, _) = f.dispatch(now, peers);
        // Never more than the limits in flight.
        let fetching = f.wants().fetching();
        assert!(fetching <= rules.max_fetches_per_folder as usize);
        let mut per_peer: BTreeMap<NodeId, usize> = BTreeMap::new();
        for w in f.wants().iter().into_iter() {
            if let WantState::Fetching { from, .. } = w.state {
                *per_peer.entry(from).or_insert(0) += 1;
            }
        }
        assert!(
            per_peer
                .values()
                .all(|n| *n <= rules.max_fetches_per_peer as usize)
        );
        if steps.is_empty() {
            break;
        }
        for step in &steps {
            match step {
                HostStep::Fetch { path, version, .. } => {
                    let outcome = script.next();
                    f.fetched(now, path, version, outcome);
                }
                HostStep::Write { path, entry, .. } => {
                    f.applied(now, path, &entry.version, ApplyOutcome::Done);
                }
                HostStep::Remove { path, .. } | HostStep::SetMeta { path, .. } => {
                    let version = f.wants().get(path).unwrap().version().clone();
                    f.applied(now, path, &version, ApplyOutcome::Done);
                }
            }
        }
        all.extend(steps);
    }
    all
}

fn entries_of(item: &HeldItem) -> Vec<&Entry> {
    (0..item.entries.len())
        .map(|i| item.entries.value_at(i))
        .collect()
}

#[test]
fn wants_settle_within_the_limits_whatever_the_sources_answer() {
    let rules = Rules {
        max_fetches_per_peer: 2,
        max_fetches_per_folder: 3,
        ..Rules::default()
    };
    for seed in 0u8..9 {
        let mut a = FolderState::new(
            FolderId::from_bytes([7; 16]),
            rules,
            &vec![node(1), node(2), node(3)],
            node(1),
            HostName::new("alpha").unwrap(),
        );
        for i in 0..7 {
            a.scanned(t(1.0), p(&format!("f{i}")), file(i, 1));
        }
        let batch = a.form_batches(t(4.0), batch_id()).remove(0);
        let mut b = FolderState::new(
            a.id(),
            rules,
            &vec![node(1), node(2), node(3)],
            node(2),
            HostName::new("bravo").unwrap(),
        );
        b.receive(t(5.0), &batch);
        assert_eq!(b.wants().len(), 7);
        let outcomes = (0..6u8)
            .map(|i| match (seed + i) % 3 {
                0 => FetchReport::Done,
                1 => FetchReport::NotAvailable,
                _ => FetchReport::HashMismatch,
            })
            .collect();
        let mut script = Script { outcomes };
        let steps = drive(&mut b, &lan(&[1, 3]), &mut script, &rules);
        let writes = steps
            .iter()
            .filter(|s| matches!(s, HostStep::Write { .. }))
            .count();
        assert_eq!(writes, b.index().len(), "every write was adopted");
        assert!(
            b.wants()
                .iter()
                .iter()
                .all(|w| matches!(w.state, WantState::NoSource | WantState::GaveUp)),
            "nothing is left in flight"
        );
    }
}

#[test]
fn a_denied_item_comes_back_when_its_bumps_are_reverted() {
    let tight = Rules {
        hold_count: 2,
        hold_pct: 10,
        ..Rules::default()
    };
    let members = vec![node(1), node(2)];
    let mut a = FolderState::new(
        FolderId::from_bytes([7; 16]),
        Rules::default(),
        &members,
        node(1),
        HostName::new("alpha").unwrap(),
    );
    let mut b = FolderState::new(
        a.id(),
        tight,
        &members,
        node(2),
        HostName::new("bravo").unwrap(),
    );
    for i in 0..4 {
        a.scanned(t(1.0), p(&format!("f{i}")), file(1, 1));
    }
    let first = a.form_batches(t(4.0), batch_id()).remove(0);
    b.receive(t(4.0), &first);
    commit_all(&mut b, t(5.0));
    b.form_batches(t(9.0), batch_id().successor(10));
    for i in 0..4 {
        a.scanned(t(10.0), p(&format!("f{i}")), ScanState::Absent);
    }
    let second = a.form_batches(t(13.0), batch_id().successor(1)).remove(0);
    let r = b.receive(t(13.0), &second);
    assert!(matches!(r.decision, Decision::Held { .. }));
    assert_eq!(b.quarantine().len(), 1);
    assert_eq!(b.deny(t(14.0), second.id).unwrap().len(), 4);
    assert!(b.quarantine().is_empty());
    assert_eq!(b.quarantine().denied().len(), 1);
    // A deletion of its own pauses the folder, and the revert undoes the denial too.
    for i in 0..4 {
        b.scanned(t(15.0), p(&format!("f{i}")), ScanState::Absent);
    }
    assert!(matches!(b.tick(t(20.0), batch_id().successor(11)), Ticked::Paused { .. }));
    assert!(b.revert(t(21.0)).is_some());
    assert_eq!(b.quarantine().len(), 1, "held again");
    assert!(b.quarantine().denied().is_empty());
    assert!(b.paused().is_none());
}

/// A fixed run of numbers.
struct Gen(u64);

impl Gen {
    fn below(&mut self, n: u64) -> u64 {
        self.0 = self.0.wrapping_mul(6364136223846793005).wrapping_add(1442695040888963407);
        (self.0 >> 33) % n
    }

    fn flag(&mut self) -> bool {
        self.below(2) == 1
    }
}

#[test]
fn window_rule_holds_for_random_write_times() {
    for run in 0..60u64 {
        let mut g = Gen(run);
        let n = 1 + g.below(11) as usize;
        let gaps: Vec<i64> = (0..n).map(|_| g.below(4 * NANOS_PER_SECOND as u64) as i64).collect();
        let mut f = folder();
        let mut now = t(100.0);
        let mut first = None;
        for (i, gap) in gaps.iter().enumerate() {
            now = now.plus_nanos(*gap);
            // Nothing forms before it is due.
            if let Some(d) = f.due() {
                assert!(!f.is_due(d.plus_nanos(-1)));
            }
            f.scanned(now, p(&format!("f{i}")), file(1, i as i64));
            let first = *first.get_or_insert(now);
            let expected = first.plus_nanos(WINDOW_NANOS).min(now.plus_nanos(DEBOUNCE_NANOS));
            assert_eq!(f.due(), Some(expected));
        }
        let due = f.due().unwrap();
        assert!(f.is_due(due));
        let batches = f.form_batches(due, batch_id());
        let total: usize = batches.iter().map(|b| b.entries.len()).sum();
        assert_eq!(total, gaps.len());
        assert_eq!(f.due(), None);
        assert!(f.index().unannounced().is_empty());
    }
}

#[test]
fn two_losers_make_identical_copies_that_merge() {
    for run in 0..60u64 {
        let mut g = Gen(run);
        let l_hash = g.below(3) as u8;
        let hash_gap = 1 + g.below(2) as u8;
        let l_mtime = g.below(3) as i64;
        let mtime_gap = 1 + g.below(2) as i64;
        let (l_exec, w_exec) = (g.flag(), g.flag());
        // The winner has other content and a later time.
        let w_hash = (l_hash + hash_gap) % 3;
        let w_mtime = l_mtime + mtime_gap;
        // B makes the base; A and C adopt it. B edits it, A edits it: concurrent. C takes B's edit
        // first and so holds the losing content too.
        let mut b = desktop();
        // Content and time of the base are outside the ranges that the edits draw from.
        let base = b.scanned(t(1.0), p("x"), file(9, 9)).change.unwrap().record.entry;
        b.form_batches(t(3.0), batch_id());
        let mut a = folder();
        a.adopt(t(3.0), base.clone());
        let mut c = FolderState::new(
            b.id(),
            Rules::default(),
            &vec![node(1), node(2), node(3)],
            node(3),
            HostName::new("charlie").unwrap(),
        );
        c.adopt(t(3.0), base);

        let l = b
            .scanned(t(4.0), p("x"), observed(Kind::File, l_hash, l_mtime, l_exec))
            .change
            .unwrap()
            .record
            .entry;
        let batch_l = b.form_batches(t(6.0), batch_id().successor(1)).remove(0);
        let w = a
            .scanned(t(4.0), p("x"), observed(Kind::File, w_hash, w_mtime, w_exec))
            .change
            .unwrap()
            .record
            .entry;
        let batch_w = a.form_batches(t(6.0), batch_id().successor(2)).remove(0);
        assert!(!l.same_content(&w));
        assert_eq!(resolve(&w, &l).winner, Side::First, "the later edit must win");

        c.receive(t(0.0), &batch_l);
        commit_all(&mut c, t(7.0));
        assert_eq!(c.index().get(&p("x")).unwrap().entry, l);

        let sb = b.receive(t(0.0), &batch_w).set;
        let sc = c.receive(t(0.0), &batch_w).set;
        let copy_b = sb.items[0].conflict().unwrap().clone();
        let copy_c = sc.items[0].conflict().unwrap().clone();
        assert_eq!(copy_b.path, copy_c.path);
        assert!(copy_b.loser.same_content(&copy_c.loser));
        let m = sb.items[0].incoming().clone();
        assert_eq!(&m, sc.items[0].incoming());
        assert_eq!(m.version, w.version.merge(&l.version));

        let wb = commit_all(&mut b, t(8.0));
        let wc = commit_all(&mut c, t(8.0));
        assert_eq!(wb.len(), 2);
        assert_eq!(wc.len(), 2);
        assert!(wb[1].entry.same_content(&wc[1].entry));
        assert_eq!(wb[1].entry.modified_by, node(2));
        assert_eq!(wc[1].entry.modified_by, node(3));
        assert_eq!(wb[1].entry.path, copy_b.path);

        // Each announces the merged entry and its copy; the copies are concurrent with identical
        // content and merge.
        let from_b = b.form_batches(t(10.0), batch_id().successor(3)).remove(0);
        let from_c = c.form_batches(t(10.0), batch_id().successor(4)).remove(0);
        let sc2 = c.receive(t(0.0), &from_b).set;
        let sb2 = b.receive(t(0.0), &from_c).set;
        assert_eq!(sc2.ignored, 1, "the merged entry is equal on both sides");
        assert_eq!(sb2.ignored, 1);
        assert_eq!(sc2.items.len(), 1);
        assert!(matches!(
            sc2.items[0].mode(),
            ApplyMode::IndexOnly | ApplyMode::MetadataOnly
        ));
        commit_all(&mut c, t(11.0));
        commit_all(&mut b, t(11.0));
        assert_eq!(b.index().get(&copy_b.path), c.index().get(&copy_b.path));
        assert_eq!(b.index().get(&p("x")).unwrap().entry, m);
        assert_eq!(c.index().get(&p("x")).unwrap().entry, m);

        // A, which holds the winner, takes the merged entry and the copy.
        let sa = a.receive(t(0.0), &from_b).set;
        assert_eq!(sa.items.len(), 2);
        commit_all(&mut a, t(12.0));
        assert_eq!(a.index().get(&p("x")).unwrap().entry, m);
        assert!(a.index().get(&copy_b.path).unwrap().entry.same_content(&copy_b.loser));
        assert_eq!(b.winner_fallbacks() + c.winner_fallbacks() + a.winner_fallbacks(), 0);
    }
}

#[test]
fn brake_holds_deterministically_and_deny_dominates() {
    let (mut held, mut passed) = (0, 0);
    for run in 0..120u64 {
        let mut g = Gen(run);
        let n = 4 + g.below(8) as usize;
        let steps = 1 + g.below(13);
        let rules = Rules {
            hold_count: 1 + g.below(5),
            hold_pct: g.below(60) as u8,
            hold_size: g.below(200),
            ..Rules::default()
        };
        let (mut a, mut b) = a_and_b(n, rules);
        for _ in 0..steps {
            let path = p(&format!("f{:02}", g.below(12) as usize % n));
            let h = g.below(3) as u8;
            if g.flag() {
                a.scanned(t(10.0), path, ScanState::Absent);
            } else {
                a.scanned(t(10.0), path, file(h + 1, 10));
            }
        }
        let batches = a.form_batches(t(12.0), bid(3));
        if batches.is_empty() {
            continue;
        }
        let batch = &batches[0];
        let before = b.clone();
        let expected_set = apply_set(before.index(), batch);
        let expected = evaluate(
            &rules,
            &receiver_summary(before.index(), &expected_set),
            before.index().tracked_count(),
        );

        let r = b.receive(t(12.0), batch);
        let mut twin = before.clone();
        let r2 = twin.receive(t(12.0), batch);
        assert_eq!(r, r2);
        assert_eq!(b, twin);

        match expected {
            Verdict::Hold(reason) => {
                held += 1;
                assert_eq!(r.held, Some(reason));
                assert!(b.wants().is_empty(), "held: nothing applied");
                let item = b.quarantine().get(batch.id).unwrap().clone();
                assert_eq!(item.entries.len(), expected_set.items.len());
                for e in entries_of(&item) {
                    assert!(batch.entries.contains(e), "entries as received");
                    assert!(b.quarantine().versions_at(&e.path).contains(&e.version));
                }
                // Every bump dominates every quarantined version at its path.
                let mut denier = b.clone();
                let changes = denier.deny(t(13.0), batch.id).unwrap();
                assert_eq!(changes.len(), item.entries.len());
                for c in &changes {
                    for q in b.quarantine().versions_at(&c.record.entry.path) {
                        assert!(c.record.entry.version.dominates(&q));
                    }
                    assert!(c.record.entry.is_metadata_only());
                    assert_eq!(c.record.entry.modified_by, node(2));
                    match before.index().get(&c.record.entry.path) {
                        Some(l) => assert!(c.record.entry.same_content(&l.entry)),
                        None => assert!(c.record.entry.deleted),
                    }
                }
                assert!(denier.quarantine().is_empty());
                // Once approved, the re-classified items are wanted, nothing before.
                match b.approve(t(13.0), batch.id) {
                    Approved::Released(set) => {
                        assert_eq!(
                            set.as_ref().map_or(0, |s| s.items.len()),
                            expected_set.items.len()
                        );
                        assert_eq!(b.wants().len(), expected_set.items.len());
                    }
                    other => panic!("expected a release, got {other:?}"),
                }
                assert!(b.quarantine().is_empty());
            }
            Verdict::Pass => {
                passed += 1;
                assert_eq!(r.held, None);
                assert_eq!(r.decision, Decision::Accepted);
                assert!(b.quarantine().is_empty());
                assert_eq!(b.wants().len(), expected_set.items.len());
            }
        }
    }
    assert!(held > 0 && passed > 0);
}

#[test]
fn revert_leaves_nothing_pending() {
    let mut runs = 0;
    for run in 0..120u64 {
        let mut g = Gen(run);
        let n = 2 + g.below(6) as usize;
        let steps = 1 + g.below(11);
        // Any deletion or change of content pauses.
        let rules = Rules { hold_count: 1, hold_pct: 0, ..Rules::default() };
        let (_, mut b) = a_and_b(n, rules);
        let announced: BTreeMap<RelPath, IndexRecord> = b
            .index()
            .records()
            .into_iter()
            .map(|r| (r.entry.path.clone(), r.clone()))
            .collect();
        for _ in 0..steps {
            let path = p(&format!("f{:02}", g.below(10)));
            let h = g.below(3) as u8;
            if g.flag() {
                b.scanned(t(10.0), path, ScanState::Absent);
            } else {
                b.scanned(t(10.0), path, file(h + 1, 10));
            }
        }
        let (summary, _) = b.precheck();
        if summary.destructive() < 1 {
            continue;
        }
        runs += 1;
        assert!(matches!(b.tick(t(12.0), bid(5)), Ticked::Paused { first: true, .. }));
        let pending: Vec<RelPath> = b.index().pending_paths();
        let live_now: Vec<RelPath> =
            pending.iter().filter(|p| b.index().live(p).is_some()).cloned().collect();
        let out = b.revert(t(13.0)).unwrap();
        assert_eq!(out.trash, live_now);
        assert_eq!(b.index().pending_count(), 0);
        assert!(b.paused().is_none());
        assert!(b.index().unannounced().is_empty());
        let mut refetch = 0;
        for path in &pending {
            match announced.get(path) {
                Some(record) => {
                    assert_eq!(b.index().get(path), Some(record));
                    if !record.entry.deleted {
                        refetch += 1;
                        assert!(b.in_flight(path));
                    }
                }
                None => assert!(b.index().get(path).is_none()),
            }
        }
        assert_eq!(out.refetch, refetch);
        let all: BTreeMap<RelPath, IndexRecord> = b
            .index()
            .records()
            .into_iter()
            .map(|r| (r.entry.path.clone(), r.clone()))
            .collect();
        assert_eq!(all, announced);
    }
    assert!(runs > 0);
}

#[test]
fn every_want_ends_in_exactly_one_place() {
    for run in 0..200u64 {
        let mut g = Gen(run);
        let rules = Rules {
            direct_limit: 40,
            relay_limit: 20,
            max_fetches_per_peer: 1 + g.below(3) as u32,
            max_fetches_per_folder: 3,
            ..Rules::default()
        };
        let a_tier = [None, Some(Tier::Lan), Some(Tier::Direct), Some(Tier::Relay)]
            [g.below(4) as usize];
        let c_connected = g.flag();
        let outcomes: Vec<FetchReport> = (0..g.below(12))
            .map(|_| {
                [FetchReport::Done, FetchReport::NotAvailable, FetchReport::HashMismatch]
                    [g.below(3) as usize]
            })
            .collect();
        let mut a = folder_with(Rules::default(), 1, "alpha");
        for _ in 0..1 + g.below(11) {
            let i = g.below(6) as u8;
            let size = 1 + g.below(59);
            let path = p(&format!("f{i}"));
            if g.flag() {
                a.scanned(t(1.0), path, observed(Kind::Dir, 0, 0, false));
            } else {
                a.scanned(
                    t(1.0),
                    path,
                    ScanState::Observed(Observed {
                        kind: Kind::File,
                        size,
                        mtime_ns: 1,
                        executable: false,
                        hash: hash(i + 1),
                    }),
                );
            }
        }
        let batch = a.form_batches(t(3.0), bid(1)).remove(0);
        let mut b = folder_with(rules, 2, "bravo");
        let r = b.receive(t(3.0), &batch);
        assert_eq!(r.decision, Decision::Accepted);
        let wanted: Vec<Entry> = b.wants().iter().into_iter().map(|w| w.entry.clone()).collect();
        let mut peers: OrdMap<NodeId, Tier> = OrdMap::new();
        if let Some(tier) = a_tier {
            peers.insert(node(1), tier);
        }
        if c_connected {
            peers.insert(node(3), Tier::Lan);
        }
        let mut script = Script { outcomes };
        let steps = drive(&mut b, &peers, &mut script, &rules);
        for step in &steps {
            if let HostStep::Fetch { from, .. } = step {
                assert_eq!(*from, node(1), "only the announcer is asked");
            }
        }
        for e in &wanted {
            let applied = b.index().get(&e.path).is_some_and(|r| r.entry == *e);
            let want = b.wants().get(&e.path);
            let parked = want.is_some_and(|w| {
                matches!(
                    w.state,
                    WantState::Deferred { .. } | WantState::NoSource | WantState::GaveUp
                )
            });
            assert!(applied != parked, "{} {applied} {parked}", e.path.as_str());
            if let Some(w) = want {
                assert!(!w.in_flight(), "nothing left in flight");
                match w.state {
                    WantState::NoSource => assert!(
                        a_tier.is_none()
                            || !w.sources.contains(&node(1))
                            || w.excluded.contains(&node(1)),
                        "no source only when the announcer moved on or served bad content"
                    ),
                    WantState::Deferred { need } => {
                        let tier = a_tier.unwrap();
                        assert!(!tier.allows(&rules, e.size));
                        assert!(need.allows(&rules, e.size));
                    }
                    WantState::GaveUp => assert_eq!(w.mismatches, 2),
                    _ => {}
                }
            }
        }
    }
}

#[test]
fn writes_respect_parent_order() {
    for run in 0..60u64 {
        let mut g = Gen(run);
        let mut a = folder_with(Rules::default(), 1, "alpha");
        let mut paths: Vec<String> = Vec::new();
        for _ in 0..1 + g.below(9) {
            let d1 = format!("d{}", g.below(3));
            let d2 = format!("{d1}/e{}", g.below(3));
            let z = g.below(3) as u8;
            let leaf = format!("{d2}/f{z}");
            for d in [&d1, &d2] {
                if !paths.contains(d) {
                    paths.push(d.clone());
                    a.scanned(t(1.0), p(d), observed(Kind::Dir, 0, 0, false));
                }
            }
            if !paths.contains(&leaf) {
                paths.push(leaf.clone());
                a.scanned(t(1.0), p(&leaf), file_obs(z + 1));
            }
        }
        let mut b = folder_with(Rules::default(), 2, "bravo");
        let batch = a.form_batches(t(3.0), bid(1)).remove(0);
        b.receive(t(3.0), &batch);
        let mut script = Script { outcomes: vec![] };
        let steps = drive(&mut b, &lan(&[1]), &mut script, &Rules::default());
        let writes: Vec<RelPath> = steps
            .iter()
            .filter_map(|s| match s {
                HostStep::Write { path, .. } => Some(path.clone()),
                _ => None,
            })
            .collect();
        for (i, w) in writes.iter().enumerate() {
            for anc in writes.iter().filter(|o| o.is_ancestor_of(w)) {
                let j = writes.iter().position(|x| x == anc).unwrap();
                assert!(j < i, "{} must be written before {}", anc.as_str(), w.as_str());
            }
        }
        assert!(b.wants().is_empty());
        if g.flag() {
            // A removes everything; B must delete children before parents.
            let all: Vec<RelPath> =
                a.index().live_records().into_iter().map(|r| r.entry.path.clone()).collect();
            for path in &all {
                a.scanned(t(10.0), path.clone(), ScanState::Absent);
            }
            let batch = a.form_batches(t(12.0), bid(2)).remove(0);
            let loose = Rules { hold_count: 0, ..Rules::default() };
            b.rules_changed(loose);
            let r = b.receive(t(12.0), &batch);
            assert_eq!(r.decision, Decision::Accepted);
            let steps = drive(&mut b, &lan(&[1]), &mut script, &loose);
            let removes: Vec<RelPath> = steps
                .iter()
                .filter_map(|s| match s {
                    HostStep::Remove { path, .. } => Some(path.clone()),
                    _ => None,
                })
                .collect();
            for (i, r) in removes.iter().enumerate() {
                for desc in removes.iter().filter(|o| r.is_ancestor_of(o)) {
                    let j = removes.iter().position(|x| x == desc).unwrap();
                    assert!(j < i, "{} must be removed before {}", desc.as_str(), r.as_str());
                }
            }
            assert_eq!(b.index().tracked_count(), 0);
            assert!(b.wants().is_empty());
        }
    }
}

#[test]
fn a_stalled_fetch_returns_within_one_tick() {
    for run in 0..60u64 {
        let mut g = Gen(run);
        let gaps: Vec<i64> = (0..1 + g.below(7)).map(|_| 1 + g.below(89) as i64).collect();
        let (mut a, mut b) = a_and_b(1, Rules::default());
        a.scanned(t(10.0), p("n"), file(7, 7));
        let batch = a.form_batches(t(12.0), bid(3)).remove(0);
        b.receive(t(12.0), &batch);
        let v = b.wants().get(&p("n")).unwrap().version().clone();
        let (steps, _) = b.dispatch(t(12.0), &lan(&[1]));
        assert_eq!(steps.len(), 1);
        let mut now = t(12.0);
        let mut expired_at = None;
        for gap in gaps {
            let before = now;
            now = now.plus_nanos(gap * NANOS_PER_SECOND);
            let overdue = b.expire(now);
            if gap >= 60 {
                assert_eq!(overdue, vec![p("n")]);
                assert_eq!(b.wants().get(&p("n")).unwrap().state, WantState::Wanted);
                assert!(b.expire(before.plus_nanos(60 * NANOS_PER_SECOND - 1)).is_empty());
                expired_at = Some(now);
                break;
            }
            assert!(overdue.is_empty(), "progress every {gap} s keeps it alive");
            b.progress(now, &p("n"), &v);
        }
        if let Some(now) = expired_at {
            let (steps, _) = b.dispatch(now, &lan(&[1]));
            assert!(matches!(&steps[0], HostStep::Fetch { from, .. } if *from == node(1)));
            assert!(b.wants().get(&p("n")).unwrap().excluded.is_empty());
        }
    }
}

#[test]
fn a_report_on_a_replaced_version_matches_nothing() {
    let (mut a, mut b) = a_and_b(1, Rules::default());
    a.scanned(t(10.0), p("n"), file(7, 7));
    let first = a.form_batches(t(12.0), bid(3)).remove(0);
    b.receive(t(12.0), &first);
    let old = b.wants().get(&p("n")).unwrap().version().clone();
    b.dispatch(t(12.0), &lan(&[1]));
    // A newer version replaces the want, and gives up after two bad answers.
    a.scanned(t(13.0), p("n"), file(8, 8));
    let second = a.form_batches(t(15.0), bid(4)).remove(0);
    b.receive(t(15.0), &second);
    let new = b.wants().get(&p("n")).unwrap().version().clone();
    assert!(new.dominates(&old));
    for _ in 0..2 {
        b.dispatch(t(16.0), &lan(&[1]));
        b.fetched(t(16.0), &p("n"), &new, FetchReport::HashMismatch);
    }
    assert_eq!(b.wants().get(&p("n")).unwrap().state, WantState::GaveUp);
    let before = b.clone();
    for report in [FetchReport::Done, FetchReport::NotAvailable, FetchReport::HashMismatch] {
        let r = b.fetched(t(17.0), &p("n"), &old, report);
        assert_eq!(r.state, None, "the report matched no want");
        assert_eq!(r.unrecoverable, None);
        assert_eq!(b, before);
    }
    let r = b.fetched(t(17.0), &p("n"), &new, FetchReport::HashMismatch);
    assert_eq!(r.state, Some(WantState::GaveUp));
}

#[test]
fn a_state_built_from_its_parts_is_the_same_state() {
    let (mut a, mut b) = a_and_b(6, tight());
    for i in 0..4 {
        a.scanned(t(10.0), p(&format!("f{i:02}")), ScanState::Absent);
    }
    let held = a.form_batches(t(12.0), bid(3)).remove(0);
    assert!(b.receive(t(12.0), &held).held.is_some());
    a.scanned(t(13.0), p("n"), file(7, 7));
    let wanted = a.form_batches(t(15.0), bid(4)).remove(0);
    b.receive(t(15.0), &wanted);
    b.scanned(t(16.0), p("f05"), file(4, 4));
    b.want_changes();
    b.take_statuses();
    let parts = b.clone().into_parts();
    assert_eq!(parts.id, b.id());
    assert_eq!(parts.wants.len(), 1);
    assert_eq!(parts.quarantine.len(), 1);
    assert_eq!(parts.members.len(), 3);
    // The same through the parts of the parts.
    let again = FolderParts {
        index: Index::from_parts(parts.index.clone().into_parts()),
        wants: WantList::from_wants(parts.wants.clone().into_wants()),
        quarantine: Quarantine::from_rows(parts.quarantine.rows(), parts.quarantine.arrivals()),
        ..parts.clone()
    };
    let c = FolderState::from_parts(again);
    assert_eq!(c.index(), b.index());
    assert_eq!(c.wants(), b.wants());
    assert_eq!(c.quarantine().first_difference(b.quarantine()), None);
    assert_eq!(c.window(), b.window());
    assert_eq!(FolderState::from_parts(parts), b);
}
