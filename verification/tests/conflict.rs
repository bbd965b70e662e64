use delocal_engine::conflict::{conflict_copy_name, merged, prefer_fields, resolve, winner, Side};
use delocal_engine::entry::{ContentHash, Entry, Kind};
use delocal_engine::id::{HostName, NodeId};
use delocal_engine::path::{MAX_COMPONENT_LEN, RelPath};
use delocal_engine::version::Version;

fn node(i: u8) -> NodeId {
    let mut b = [0u8; 16];
    b[0] = i;
    NodeId::from_bytes(b)
}

fn hash(i: u8) -> ContentHash {
    let mut b = [0u8; 32];
    b[0] = i;
    b[31] = 1;
    ContentHash::from_bytes(b)
}

fn entry(path: &str, by: u8, mtime_ns: i64, h: u8) -> Entry {
    Entry {
        path: RelPath::new(path).unwrap(),
        kind: Kind::File,
        size: 10,
        mtime_ns,
        stamp: 0,
        executable: false,
        hash: hash(h),
        prev_hash: hash(100),
        version: Version::empty().incremented(node(by)),
        deleted: false,
        modified_by: node(by),
        author_host: HostName::new(&format!("host{by}")).unwrap(),
    }
}

fn ts(y: i64, mo: i64, d: i64, h: i64, mi: i64, s: i64) -> i64 {
    // days from civil (Hinnant), for test inputs only
    let (y, mo) = if mo <= 2 { (y - 1, mo + 12) } else { (y, mo) };
    let era = y.div_euclid(400);
    let yoe = y - era * 400;
    let doy = (153 * (mo - 3) + 2) / 5 + d - 1;
    let doe = yoe * 365 + yoe / 4 - yoe / 100 + doy;
    let days = era * 146_097 + doe - 719_468;
    ((days * 86_400) + h * 3600 + mi * 60 + s) * 1_000_000_000
}

#[test]
fn example_name_from_the_design() {
    let mut l = entry("report.xlsx", 1, ts(2026, 9, 22, 14, 30, 5), 1);
    l.author_host = HostName::new("laptop").unwrap();
    assert_eq!(
        conflict_copy_name(&l).unwrap().as_str(),
        "report.conflict-20260922-143005-laptop.xlsx"
    );
}

#[test]
fn name_rules_for_extensions_dotfiles_dirs_and_empty_host() {
    let t = ts(2026, 9, 22, 14, 30, 5);
    let mut l = entry("a/b/archive.tar.gz", 1, t, 1);
    l.author_host = HostName::new("pi").unwrap();
    assert_eq!(
        conflict_copy_name(&l).unwrap().as_str(),
        "a/b/archive.tar.conflict-20260922-143005-pi.gz",
        "split on the last extension, parent kept"
    );
    let mut dot = entry(".bashrc", 1, t, 1);
    dot.author_host = HostName::new("pi").unwrap();
    assert_eq!(
        conflict_copy_name(&dot).unwrap().as_str(),
        ".bashrc.conflict-20260922-143005-pi"
    );
    let mut dir = entry("photos.old", 1, 0, 1);
    dir.kind = Kind::Dir;
    dir.author_host = HostName::new("pi").unwrap();
    assert_eq!(
        conflict_copy_name(&dir).unwrap().as_str(),
        "photos.old.conflict-19700101-000000-pi",
        "directories take the whole name and have no mtime"
    );
    let mut anon = entry("x.txt", 7, t, 1);
    anon.author_host = HostName::empty();
    assert_eq!(
        conflict_copy_name(&anon).unwrap().as_str(),
        "x.conflict-20260922-143005-07000000.txt",
        "short node id when the host is empty"
    );
    let mut noext = entry("Makefile", 1, t, 1);
    noext.author_host = HostName::new("pi").unwrap();
    assert_eq!(
        conflict_copy_name(&noext).unwrap().as_str(),
        "Makefile.conflict-20260922-143005-pi"
    );
}

#[test]
fn long_names_are_cut_to_fit() {
    let t = ts(2026, 9, 22, 14, 30, 5);
    let host = HostName::new(&"h".repeat(63)).unwrap();
    // A 250-byte stem plus a 4-byte extension: the stem gives way.
    let mut l = entry(&format!("{}.txt", "s".repeat(251)), 1, t, 1);
    l.author_host = host.clone();
    let name = conflict_copy_name(&l).unwrap();
    assert_eq!(name.file_name().len(), 255);
    assert!(name.file_name().ends_with(&format!("-{}.txt", host.as_str())));
    assert!(name.file_name().starts_with("sss"));
    // Multi-byte stem: the cut lands on a char boundary.
    let mut u = entry(&format!("{}.md", "ü".repeat(125)), 1, t, 1);
    u.author_host = host.clone();
    let name = conflict_copy_name(&u).unwrap();
    assert!(name.file_name().len() <= 255);
    assert!(name.file_name().ends_with(".md"));
    // An extension too long on its own: it is cut from the end.
    let mut e = entry(&format!("a.{}", "e".repeat(253)), 1, t, 1);
    e.author_host = host;
    let name = conflict_copy_name(&e).unwrap();
    assert_eq!(name.file_name().len(), 255);
    assert!(name.file_name().contains(".conflict-"));
}

#[test]
fn winner_rule_in_order() {
    let a = entry("f", 1, 100, 1);
    let b = entry("f", 2, 200, 2);
    // 3: larger mtime
    assert_eq!(winner(&a, &b).side, Side::Second);
    assert_eq!(winner(&b, &a).side, Side::First);
    // 1: live beats tombstone regardless of mtime
    let mut dead = b.clone();
    dead.deleted = true;
    dead.hash = ContentHash::empty();
    assert_eq!(winner(&a, &dead).side, Side::First);
    assert_eq!(winner(&dead, &a).side, Side::Second);
    // 2: a real edit beats a touch regardless of mtime
    let mut touch = b.clone();
    touch.prev_hash = touch.hash;
    assert!(touch.is_metadata_only());
    assert_eq!(winner(&a, &touch).side, Side::First);
    assert_eq!(winner(&touch, &a).side, Side::Second);
    // 4: equal mtime, larger node id
    let c = entry("f", 3, 200, 3);
    let w = winner(&b, &c);
    assert_eq!((w.side, w.fallback), (Side::Second, false));
    // 5: same author and mtime, fallback on hash
    let d = entry("f", 2, 200, 9);
    let w = winner(&b, &d);
    assert_eq!((w.side, w.fallback), (Side::Second, true));
    assert_eq!(winner(&d, &b).side, Side::First);
    // 5: a symlink and a file with the same bytes, author and time
    let mut link = b.clone();
    link.kind = Kind::Symlink;
    let w = winner(&b, &link);
    assert_eq!(
        (w.side, w.fallback),
        (Side::Second, true),
        "symlink orders above file"
    );
    assert_eq!(winner(&link, &b).side, Side::First);
    // full tie
    let w = winner(&b, &b);
    assert_eq!((w.side, w.fallback), (Side::First, true));
}

#[test]
fn merged_takes_winner_fields_under_the_merged_vector() {
    let mut a = entry("f", 1, 100, 1);
    a.version = Version::empty().incremented(node(1)).incremented(node(1));
    let b = entry("f", 2, 200, 2);
    let r = resolve(&a, &b);
    assert_eq!(r.winner, Side::Second);
    assert!(!r.fallback);
    let m = &r.merged;
    assert_eq!((m.hash, m.mtime_ns, m.modified_by), (hash(2), 200, node(2)));
    assert_eq!(m.author_host.as_str(), "host2");
    assert_eq!(m.version.counter(node(1)), 2);
    assert_eq!(m.version.counter(node(2)), 1);
    assert!(m.version.dominates(&a.version));
    assert!(m.version.dominates(&b.version));
    assert_eq!(resolve(&b, &a).merged, r.merged, "symmetric");
}

#[test]
fn the_later_stamp_decides_first() {
    let mut a = entry("f", 1, 100, 1);
    let b = entry("f", 2, 200, 2);
    a.stamp = 1;
    assert_eq!(winner(&a, &b).side, Side::First);
    assert_eq!(winner(&b, &a).side, Side::Second);
    let mut dead = b.clone();
    dead.deleted = true;
    dead.stamp = 2;
    assert_eq!(winner(&dead, &a).side, Side::First, "even a tombstone");
    assert_eq!(Side::First.flip(), Side::Second);
    assert_eq!(Side::Second.other(), Side::First);
}

#[test]
fn identical_content_keeps_the_fresher_fields() {
    let a = entry("f", 1, 100, 1);
    let mut b = a.clone();
    b.mtime_ns = 200;
    assert_eq!(prefer_fields(&a, &b).side, Side::Second);
    assert_eq!(prefer_fields(&b, &a).side, Side::First);
    let mut c = a.clone();
    c.modified_by = node(9);
    let w = prefer_fields(&a, &c);
    assert_eq!((w.side, w.fallback), (Side::Second, false));
    let mut d = a.clone();
    d.size = 11;
    let w = prefer_fields(&a, &d);
    assert_eq!((w.side, w.fallback), (Side::Second, true));
    assert_eq!(merged(&b, &a).mtime_ns, 200);
}

/// Every machine given the same pair, in either order, computes the same result, and three
/// versions resolve alike in whichever grouping.
#[test]
fn resolution_is_symmetric_dominating_and_associative() {
    let mut all = Vec::new();
    for (i, (mtime, h, deleted)) in [(1, 1, false), (1, 2, false), (2, 1, false), (3, 0, true)]
        .into_iter()
        .enumerate()
    {
        let mut e = entry("d/a.txt", 1 + i as u8, mtime, h);
        e.deleted = deleted;
        e.stamp = i64::from(i as u8 % 2);
        all.push(e);
    }
    for a in &all {
        for b in &all {
            let ab = resolve(a, b);
            let ba = resolve(b, a);
            assert_eq!(ab.merged, ba.merged);
            assert_eq!(ab.fallback, ba.fallback);
            assert!(ab.merged.version.dominates_or_equals(&a.version));
            assert!(ab.merged.version.dominates_or_equals(&b.version));
            assert_eq!(ab.merged.version, a.version.merge(&b.version));
            for c in &all {
                let left = resolve(&ab.merged, c).merged;
                let right = resolve(a, &resolve(b, c).merged).merged;
                assert_eq!(left, right);
            }
        }
    }
}

#[test]
fn copy_names_are_valid_and_stay_beside_the_loser() {
    let t = ts(2026, 9, 22, 14, 30, 5);
    for path in ["a", "d/.rc", "d/e/x.tar.gz", "trailing."] {
        let mut l = entry(path, 1, t, 1);
        let name = conflict_copy_name(&l).unwrap();
        assert_eq!(name.parent(), p_of(path).parent());
        assert!(name.file_name().len() <= MAX_COMPONENT_LEN);
        assert!(name.file_name().contains(".conflict-20260922-143005-host1"));
        l.author_host = HostName::empty();
        assert!(conflict_copy_name(&l).unwrap().file_name().contains("-01000000"));
    }
}

fn p_of(path: &str) -> RelPath {
    RelPath::new(path).unwrap()
}

/// A fixed run of numbers.
struct Gen(u64);

impl Gen {
    fn below(&mut self, n: u64) -> u64 {
        self.0 = self.0.wrapping_mul(6364136223846793005).wrapping_add(1442695040888963407);
        (self.0 >> 33) % n
    }

    fn flag(&mut self) -> bool {
        self.below(2) == 1
    }
}

fn any_entry(g: &mut Gen) -> Entry {
    let path = ["d/a.txt", "b", ".rc"][g.below(3) as usize];
    let (by, mtime, h, ph) =
        (g.below(4) as u8, g.below(4) as i64, g.below(3) as u8, g.below(3) as u8);
    let (exec, deleted) = (g.flag(), g.flag());
    let kind = [Kind::File, Kind::Dir, Kind::Symlink][g.below(3) as usize];
    let other = g.below(3) as u8;
    let mut e = entry(path, by, if kind == Kind::File { mtime } else { 0 }, h);
    e.kind = kind;
    e.executable = exec && kind == Kind::File;
    e.deleted = deleted;
    e.prev_hash = hash(ph);
    if deleted || kind == Kind::Dir {
        e.hash = ContentHash::empty();
    }
    e.version = e.version.incremented(node(other));
    e
}

#[test]
fn resolution_is_symmetric_and_dominating() {
    let mut g = Gen(1);
    let mut pairs = 0;
    while pairs < 1000 {
        let a = any_entry(&mut g);
        let mut b = any_entry(&mut g);
        b.path = a.path.clone();
        if a.same_content(&b) {
            continue;
        }
        pairs += 1;
        let ab = resolve(&a, &b);
        let ba = resolve(&b, &a);
        assert_eq!(ab.merged, ba.merged);
        assert_eq!(ab.winner, ba.winner.flip());
        assert_eq!(ab.fallback, ba.fallback);
        let m = &ab.merged;
        assert!(m.version.dominates_or_equals(&a.version));
        assert!(m.version.dominates_or_equals(&b.version));
        assert_eq!(m.version, a.version.merge(&b.version));
        let w = if ab.winner == Side::First { &a } else { &b };
        assert!(m.same_content(w));
        assert_eq!(
            (m.mtime_ns, m.modified_by, &m.author_host, m.prev_hash, m.size),
            (w.mtime_ns, w.modified_by, &w.author_host, w.prev_hash, w.size)
        );
        if a.deleted != b.deleted {
            assert!(!w.deleted);
        } else if a.is_metadata_only() != b.is_metadata_only() {
            assert!(!w.is_metadata_only());
        }
        if ab.fallback {
            assert_eq!(a.mtime_ns, b.mtime_ns);
            assert_eq!(a.modified_by, b.modified_by);
        }
    }
}

#[test]
fn conflict_copy_name_is_valid_and_deterministic() {
    let mut g = Gen(2);
    for long in 0usize..300 {
        let mut l = any_entry(&mut g);
        let host_len = g.below(64) as usize;
        let stem: String = "é".repeat(long / 2) + &"x".repeat(long % 2);
        l.path = RelPath::new(&format!("dir/{stem}.dat"))
            .or_else(|_| RelPath::new("dir/x.dat"))
            .unwrap();
        l.author_host = HostName::new(&"h".repeat(host_len)).unwrap();
        let name = conflict_copy_name(&l).unwrap();
        assert!(name.file_name().len() <= MAX_COMPONENT_LEN);
        assert_eq!(name.parent(), l.path.parent());
        assert!(name.file_name().contains(".conflict-"));
        assert!(RelPath::new(name.as_str()).is_ok());
        assert_eq!(conflict_copy_name(&l.clone()), Some(name));
    }
}
