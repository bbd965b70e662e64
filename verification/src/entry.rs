//! Index entries and content equality.

use crate::id::{
    be_bytes, be_read, be_write, lemma_be_bytes_of_value, lemma_be_order, lemma_be_value_of_bytes,
    lemma_byte_range_16, parse_hex, parses, HostName, NodeId, ParseHexError, Short,
};
use crate::order::{lemma_lex_concat, lex_lt, Ordered};
use crate::ordmap::{Key, Value};
use crate::path::RelPath;
use crate::text::{hex_string, hex_text};
use crate::version::{Vector, Version};
use std::str::FromStr;
use vstd::prelude::*;
use vstd::string::*;

verus! {

/// A content hash: of the content for files, of the target for symlinks. Directories carry
/// [`ContentHash::empty()`]. The host computes it.
#[derive(Clone, Copy, Debug, PartialEq, Eq, PartialOrd, Ord, Hash, Structural)]
pub struct ContentHash {
    hi: u128,
    lo: u128,
}

impl ContentHash {
    /// Number of bytes.
    pub const LEN: usize = 32;

    /// The hash that directories carry: all zeros.
    pub closed spec fn zeros() -> ContentHash {
        ContentHash { hi: 0, lo: 0 }
    }

    /// The hash that directories carry: all zeros.
    #[verifier::when_used_as_spec(zeros)]
    pub fn empty() -> (r: ContentHash)
        ensures
            r == ContentHash::zeros(),
            r.bytes() == Seq::new(32, |i: int| 0u8),
    {
        proof {
            reveal_with_fuel(be_bytes, 17);
            assert(ContentHash::zeros().bytes() =~= Seq::new(32, |i: int| 0u8));
        }
        ContentHash { hi: 0, lo: 0 }
    }

    /// The hash's bytes.
    pub closed spec fn bytes(&self) -> Seq<u8> {
        be_bytes(self.hi as nat, 16) + be_bytes(self.lo as nat, 16)
    }

    /// Wraps bytes that the host produced.
    pub fn from_bytes(bytes: [u8; 32]) -> (r: ContentHash)
        ensures
            r.bytes() == bytes@,
    {
        let hi: u128 = be_read(bytes.as_slice(), 0);
        let lo: u128 = be_read(bytes.as_slice(), 16);
        proof {
            lemma_be_bytes_of_value(bytes@.subrange(0, 16));
            lemma_be_bytes_of_value(bytes@.subrange(16, 32));
            assert(bytes@.subrange(0, 16) + bytes@.subrange(16, 32) =~= bytes@);
        }
        ContentHash { hi, lo }
    }

    /// The raw bytes.
    pub fn as_bytes(&self) -> (r: [u8; 32])
        ensures
            r@ == self.bytes(),
    {
        let a = be_write(self.hi);
        let b = be_write(self.lo);
        let mut out: [u8; 32] = [0u8; 32];
        let mut i: usize = 0;
        while i < 16
            invariant
                i <= 16,
                out@.len() == 32,
                a@.len() == 16,
                b@.len() == 16,
                forall|j: int| 0 <= j < i ==> out@[j] == a@[j],
                forall|j: int| 0 <= j < i ==> #[trigger] out@[16 + j] == b@[j],
            decreases 16 - i,
        {
            out[i] = a[i];
            out[16 + i] = b[i];
            i = i + 1;
        }
        proof {
            assert forall|j: int| 0 <= j < 32 implies out@[j] == (a@ + b@)[j] by {
                if j >= 16 {
                    assert(out@[16 + (j - 16)] == b@[j - 16]);
                }
            }
            assert(out@ =~= a@ + b@);
        }
        out
    }

    /// The short display form: the first eight hexadecimal digits.
    pub fn short(&self) -> (r: Short)
        ensures
            r.bytes() == self.bytes().take(4),
    {
        proof {
            lemma_byte_range_16();
            lemma_be_value_of_bytes(self.hi as nat, 16);
            assert(self.bytes().take(4) =~= be_bytes(self.hi as nat, 16).take(4));
        }
        Short::of(&be_write(self.hi))
    }

    /// Sixty-four lowercase hexadecimal digits.
    pub fn to_string(&self) -> (r: String)
        ensures
            r@ == hex_text(self.bytes()),
    {
        hex_string(self.as_bytes().as_slice())
    }

    /// Parses sixty-four hexadecimal digits.
    pub fn parse(s: &str) -> (r: Result<ContentHash, ParseHexError>)
        ensures
            parses(
                s.spec_bytes(),
                32,
                match r {
                    Ok(h) => Ok(h.bytes()),
                    Err(e) => Err(e),
                },
            ),
    {
        match parse_hex(s, 32) {
            Ok(v) => {
                let hi: u128 = be_read(v.as_slice(), 0);
                let lo: u128 = be_read(v.as_slice(), 16);
                proof {
                    lemma_be_bytes_of_value(v@.subrange(0, 16));
                    lemma_be_bytes_of_value(v@.subrange(16, 32));
                    assert(v@.subrange(0, 16) + v@.subrange(16, 32) =~= v@);
                }
                Ok(ContentHash { hi, lo })
            },
            Err(e) => Err(e),
        }
    }

    /// Two hashes are the same when their bytes are, and are ordered by their bytes.
    pub proof fn law_bytes(a: ContentHash, b: ContentHash)
        ensures
            a.bytes().len() == 32,
            a == b <==> a.bytes() == b.bytes(),
            a.before(b) <==> lex_lt(a.bytes(), b.bytes()),
    {
        lemma_byte_range_16();
        lemma_be_value_of_bytes(a.hi as nat, 16);
        lemma_be_value_of_bytes(a.lo as nat, 16);
        lemma_be_value_of_bytes(b.hi as nat, 16);
        lemma_be_value_of_bytes(b.lo as nat, 16);
        let (p, q) = (be_bytes(a.hi as nat, 16), be_bytes(a.lo as nat, 16));
        let (r, s) = (be_bytes(b.hi as nat, 16), be_bytes(b.lo as nat, 16));
        lemma_be_order(p, r);
        lemma_be_order(q, s);
        lemma_lex_concat(p, q, r, s);
        assert((p + q).take(16) =~= p);
        assert((r + s).take(16) =~= r);
        assert((p + q).skip(16) =~= q);
        assert((r + s).skip(16) =~= s);
    }
}

impl FromStr for ContentHash {
    type Err = ParseHexError;

    fn from_str(s: &str) -> (r: Result<ContentHash, ParseHexError>)
        ensures
            parses(
                s.spec_bytes(),
                32,
                match r {
                    Ok(id) => Ok(id.bytes()),
                    Err(e) => Err(e),
                },
            ),
    {
        ContentHash::parse(s)
    }
}

impl DeepView for ContentHash {
    type V = ContentHash;

    open spec fn deep_view(&self) -> ContentHash {
        *self
    }
}

impl Ordered for ContentHash {
    closed spec fn before(self, other: ContentHash) -> bool {
        self.hi < other.hi || (self.hi == other.hi && self.lo < other.lo)
    }

    proof fn irreflexive(a: ContentHash) {
    }

    proof fn transitive(a: ContentHash, b: ContentHash, c: ContentHash) {
    }

    proof fn total(a: ContentHash, b: ContentHash) {
    }
}

impl Key for ContentHash {
    type O = ContentHash;

    open spec fn key(&self) -> ContentHash {
        *self
    }

    fn less(&self, other: &ContentHash) -> (r: bool) {
        self.hi < other.hi || (self.hi == other.hi && self.lo < other.lo)
    }

    fn copy_key(&self) -> (r: ContentHash) {
        *self
    }
}

/// What kind of filesystem object an entry is.
#[derive(Clone, Copy, Debug, PartialEq, Eq, PartialOrd, Ord, Hash, Structural)]
pub enum Kind {
    File,
    Dir,
    Symlink,
}

/// What the host saw at a path, after hashing.
#[derive(Clone, Copy, Debug, PartialEq, Eq, Hash, Structural)]
pub struct Observed {
    pub kind: Kind,
    /// Bytes for files, target length for symlinks, 0 for directories.
    pub size: u64,
    /// Nanoseconds since the Unix epoch, as the filesystem reports it.
    pub mtime_ns: i64,
    /// The executable bit, files only.
    pub executable: bool,
    /// Content hash; [`ContentHash::empty()`] for directories.
    pub hash: ContentHash,
}

impl Observed {
    /// The observation without the fields that its kind cannot have.
    pub open spec fn normal_form(self) -> Observed {
        match self.kind {
            Kind::Dir => Observed { size: 0, executable: false, hash: ContentHash::empty(), ..self },
            Kind::Symlink => Observed { executable: false, ..self },
            Kind::File => self,
        }
    }

    /// Drops the fields that the kind cannot have: directories have no size, hash or executable
    /// bit; symlinks have no executable bit.
    pub fn normalised(self) -> (r: Observed)
        ensures
            r == self.normal_form(),
    {
        match self.kind {
            Kind::Dir => Observed {
                kind: self.kind,
                size: 0,
                mtime_ns: self.mtime_ns,
                executable: false,
                hash: ContentHash::empty(),
            },
            Kind::Symlink => Observed {
                kind: self.kind,
                size: self.size,
                mtime_ns: self.mtime_ns,
                executable: false,
                hash: self.hash,
            },
            Kind::File => self,
        }
    }
}

/// One entry as announced in a batch and stored in the index.
#[derive(Clone, Debug, PartialEq, Eq)]
pub struct Entry {
    pub path: RelPath,
    pub kind: Kind,
    pub size: u64,
    pub mtime_ns: i64,
    /// When the content was last edited, raised by every change so that a later version of a
    /// path ranks above the versions that it replaces.
    pub stamp: i64,
    pub executable: bool,
    pub hash: ContentHash,
    /// The hash that this version replaced.
    pub prev_hash: ContentHash,
    pub version: Version,
    /// This record is a tombstone.
    pub deleted: bool,
    /// The node that produced this version.
    pub modified_by: NodeId,
    /// Host name of `modified_by` when it made the change.
    pub author_host: HostName,
}

/// What an entry stands for.
pub struct EntryView {
    pub path: Seq<u8>,
    pub kind: Kind,
    pub size: u64,
    pub mtime_ns: i64,
    pub stamp: i64,
    pub executable: bool,
    pub hash: ContentHash,
    pub prev_hash: ContentHash,
    pub version: Vector,
    pub deleted: bool,
    pub modified_by: NodeId,
    pub author_host: Seq<u8>,
}

impl View for Entry {
    type V = EntryView;

    open spec fn view(&self) -> EntryView {
        EntryView {
            path: self.path@,
            kind: self.kind,
            size: self.size,
            mtime_ns: self.mtime_ns,
            stamp: self.stamp,
            executable: self.executable,
            hash: self.hash,
            prev_hash: self.prev_hash,
            version: self.version@,
            deleted: self.deleted,
            modified_by: self.modified_by,
            author_host: self.author_host@,
        }
    }
}

impl DeepView for Entry {
    type V = EntryView;

    open spec fn deep_view(&self) -> EntryView {
        self.view()
    }
}

impl EntryView {
    /// What the host sees of the entry.
    pub open spec fn observed(self) -> Observed {
        Observed {
            kind: self.kind,
            size: self.size,
            mtime_ns: self.mtime_ns,
            executable: self.executable,
            hash: self.hash,
        }
    }

    /// Whether two entries have the same content: the kind, the hash and, for files, the
    /// executable bit. Two tombstones do, a tombstone and a live entry never do.
    pub open spec fn same_content(self, other: EntryView) -> bool {
        if self.deleted || other.deleted {
            self.deleted && other.deleted
        } else {
            &&& self.kind == other.kind
            &&& self.hash == other.hash
            &&& self.kind == Kind::File ==> self.executable == other.executable
        }
    }

    /// Whether the entry changed no content.
    pub open spec fn metadata_only(self) -> bool {
        self.hash == self.prev_hash
    }
}

impl Entry {
    /// What the host sees of this entry.
    pub fn observed(&self) -> (r: Observed)
        ensures
            r == self@.observed(),
    {
        Observed {
            kind: self.kind,
            size: self.size,
            mtime_ns: self.mtime_ns,
            executable: self.executable,
            hash: self.hash,
        }
    }

    /// Content equality: kind, hash and, for files, the executable bit.
    pub fn same_content(&self, other: &Entry) -> (r: bool)
        ensures
            r == self@.same_content(other@),
    {
        if self.deleted || other.deleted {
            return self.deleted && other.deleted;
        }
        self.kind == other.kind && self.hash == other.hash && (self.kind != Kind::File || self.executable
            == other.executable)
    }

    /// Whether the entry changed no content: a touch.
    pub fn is_metadata_only(&self) -> (r: bool)
        ensures
            r == self@.metadata_only(),
    {
        self.hash == self.prev_hash
    }
}

impl Value for Entry {
    fn dup(&self) -> (r: Entry) {
        Entry {
            path: self.path.dup(),
            kind: self.kind,
            size: self.size,
            mtime_ns: self.mtime_ns,
            stamp: self.stamp,
            executable: self.executable,
            hash: self.hash,
            prev_hash: self.prev_hash,
            version: self.version.dup(),
            deleted: self.deleted,
            modified_by: self.modified_by,
            author_host: self.author_host.dup(),
        }
    }

    fn same(&self, other: &Entry) -> (r: bool) {
        self.path.same(&other.path) && self.kind == other.kind && self.size == other.size
            && self.mtime_ns == other.mtime_ns && self.stamp == other.stamp && self.executable
            == other.executable && self.hash == other.hash && self.prev_hash == other.prev_hash
            && self.version.same(&other.version) && self.deleted == other.deleted
            && self.modified_by == other.modified_by && self.author_host.same(&other.author_host)
    }
}

} // verus!
