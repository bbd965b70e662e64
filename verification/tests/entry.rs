use delocal_engine::entry::{ContentHash, Entry, Kind, Observed};
use delocal_engine::id::{HostName, NodeId};
use delocal_engine::path::RelPath;
use delocal_engine::version::Version;

fn node(i: u8) -> NodeId {
    let mut b = [0u8; 16];
    b[0] = i;
    NodeId::from_bytes(b)
}

fn hash(i: u8) -> ContentHash {
    let mut b = [0u8; 32];
    b[0] = i;
    ContentHash::from_bytes(b)
}

fn file(h: u8, executable: bool) -> Entry {
    Entry {
        path: RelPath::new("a.txt").unwrap(),
        kind: Kind::File,
        size: 10,
        mtime_ns: 1_000,
        stamp: 1_000,
        executable,
        hash: hash(h),
        prev_hash: ContentHash::empty(),
        version: Version::empty().incremented(node(1)),
        deleted: false,
        modified_by: node(1),
        author_host: HostName::new("laptop").unwrap(),
    }
}

#[test]
fn hash_is_64_hex_and_has_an_empty_value() {
    assert_eq!(ContentHash::empty().to_string(), "0".repeat(64));
    assert_eq!(ContentHash::LEN, 32);
    let h: ContentHash = "ff".repeat(32).parse().unwrap();
    assert_eq!(h.as_bytes(), [0xff; 32]);
    assert_eq!(h.short().to_string(), "ffffffff");
}

#[test]
fn normalised_strips_fields_the_kind_cannot_have() {
    let dir = Observed {
        kind: Kind::Dir,
        size: 4096,
        mtime_ns: 5,
        executable: true,
        hash: hash(9),
    }
    .normalised();
    assert_eq!(
        (dir.size, dir.hash, dir.executable, dir.mtime_ns),
        (0, ContentHash::empty(), false, 5)
    );
    let link = Observed {
        kind: Kind::Symlink,
        size: 7,
        mtime_ns: 5,
        executable: true,
        hash: hash(9),
    }
    .normalised();
    assert_eq!((link.size, link.hash, link.executable), (7, hash(9), false));
    let file = Observed {
        kind: Kind::File,
        size: 7,
        mtime_ns: 5,
        executable: true,
        hash: hash(9),
    };
    assert_eq!(file.clone().normalised(), file);
}

#[test]
fn same_content_ignores_mtime_and_size_but_not_exec_or_hash() {
    let a = file(1, false);
    let mut b = a.clone();
    b.mtime_ns += 1;
    b.size += 1;
    b.version = b.version.incremented(node(2));
    b.modified_by = node(2);
    assert!(a.same_content(&b));

    assert!(!a.same_content(&file(2, false)), "different hash");
    assert!(!a.same_content(&file(1, true)), "different executable");

    let mut dir_a = a.clone();
    dir_a.kind = Kind::Dir;
    dir_a.hash = ContentHash::empty();
    let mut dir_b = dir_a.clone();
    dir_b.executable = true; // not meaningful for dirs, must not matter
    assert!(dir_a.same_content(&dir_b));
    assert!(!dir_a.same_content(&a), "file vs dir");
}

#[test]
fn tombstones_equal_each_other_and_nothing_else() {
    let live = file(1, false);
    let mut dead = live.clone();
    dead.deleted = true;
    let mut dead2 = dead.clone();
    dead2.hash = hash(5);
    dead2.kind = Kind::Dir;
    assert!(dead.same_content(&dead2));
    assert!(!dead.same_content(&live));
    assert!(!live.same_content(&dead));
}

#[test]
fn a_touch_keeps_the_hash() {
    let mut e = file(1, false);
    assert!(!e.is_metadata_only());
    e.prev_hash = e.hash;
    assert!(e.is_metadata_only());
    assert_eq!(e.observed().mtime_ns, 1_000);
    assert_eq!(e.observed().hash, hash(1));
}

#[test]
fn hashes_order_by_their_bytes() {
    let mut lo = [0u8; 32];
    lo[31] = 9;
    let mut hi = [0u8; 32];
    hi[16] = 1;
    assert!(ContentHash::from_bytes(lo) < ContentHash::from_bytes(hi));
    assert_eq!(ContentHash::from_bytes(hi).as_bytes(), hi);
    assert!("ff".repeat(31).parse::<ContentHash>().is_err());
}
