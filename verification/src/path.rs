//! Entry paths: relative, with forward slashes.
//!
//! A [`RelPath`] is the key of the index and the path of every entry. It is not empty, has no
//! empty, `.` or `..` component, no NUL and no component over 255 bytes, and does not lie under
//! the reserved directory at the folder root. Paths are ordered by their bytes, so every
//! directory comes before its contents.

use crate::order::{bytes_less, bytes_same, lex_lt, Ordered};
use crate::ordmap::{Key, Value};
use std::str::FromStr;
use vstd::prelude::*;
use vstd::slice::slice_subrange;
use vstd::string::*;
use vstd::utf8::encode_utf8;

verus! {

/// The directory at every folder root that is not synced.
pub const RESERVED_DIR: &'static str = ".delocal";

/// Longest path component, in bytes.
pub const MAX_COMPONENT_LEN: usize = 255;

/// Why a string is not a valid [`RelPath`].
#[derive(Clone, Copy, Debug, PartialEq, Eq, Structural)]
pub enum RelPathError {
    /// The empty string. The folder root itself is not an entry.
    Empty,
    /// Starts with `/`.
    Absolute,
    /// Ends with `/`.
    TrailingSlash,
    /// Contains `//`.
    EmptyComponent,
    /// A `.` component, a leading `./` among them.
    DotComponent,
    /// A `..` component.
    DotDotComponent,
    /// A NUL byte.
    Nul,
    /// A component longer than [`MAX_COMPONENT_LEN`] bytes; holds its length.
    ComponentTooLong(usize),
    /// The reserved directory, or something under it.
    Reserved,
}

impl RelPathError {
    /// What the error says.
    pub open spec fn text(self) -> Seq<char> {
        match self {
            RelPathError::Empty => "path is empty"@,
            RelPathError::Absolute => "path starts with /"@,
            RelPathError::TrailingSlash => "path ends with /"@,
            RelPathError::EmptyComponent => "path contains //"@,
            RelPathError::DotComponent => "path contains a . component"@,
            RelPathError::DotDotComponent => "path contains a .. component"@,
            RelPathError::Nul => "path contains a NUL byte"@,
            RelPathError::ComponentTooLong(_) => "path has a component longer than 255 bytes"@,
            RelPathError::Reserved => "path is under the reserved .delocal directory"@,
        }
    }

    /// The error as a sentence.
    pub fn to_string(&self) -> (r: String)
        ensures
            r@ == self.text(),
    {
        let s = match self {
            RelPathError::Empty => "path is empty",
            RelPathError::Absolute => "path starts with /",
            RelPathError::TrailingSlash => "path ends with /",
            RelPathError::EmptyComponent => "path contains //",
            RelPathError::DotComponent => "path contains a . component",
            RelPathError::DotDotComponent => "path contains a .. component",
            RelPathError::Nul => "path contains a NUL byte",
            RelPathError::ComponentTooLong(_) => "path has a component longer than 255 bytes",
            RelPathError::Reserved => "path is under the reserved .delocal directory",
        };
        s.to_owned()
    }
}

// ---- what a path is ---------------------------------------------------------

/// The offset of the first slash, or the length if there is none.
pub open spec fn first_slash(s: Seq<u8>) -> int
    decreases s.len(),
{
    if s.len() == 0 {
        0
    } else if s[0] == 47 {
        0
    } else {
        1 + first_slash(s.drop_first())
    }
}

/// The offset of the last slash, or -1 if there is none.
pub open spec fn last_slash(s: Seq<u8>) -> int
    decreases s.len(),
{
    if s.len() == 0 {
        -1
    } else if s.last() == 47 {
        s.len() - 1
    } else {
        last_slash(s.drop_last())
    }
}

/// The parts between slashes.
pub open spec fn split(s: Seq<u8>) -> Seq<Seq<u8>>
    decreases s.len(),
    via split_decreases
{
    let n = first_slash(s);
    if n >= s.len() {
        seq![s]
    } else {
        seq![s.take(n)] + split(s.skip(n + 1))
    }
}

#[via_fn]
proof fn split_decreases(s: Seq<u8>) {
    lemma_first_slash(s);
}

proof fn lemma_first_slash(s: Seq<u8>)
    ensures
        0 <= first_slash(s) <= s.len(),
        first_slash(s) < s.len() ==> s[first_slash(s)] == 47,
        forall|i: int| 0 <= i < first_slash(s) ==> s[i] != 47,
    decreases s.len(),
{
    if s.len() > 0 && s[0] != 47 {
        let t = s.drop_first();
        lemma_first_slash(t);
        assert forall|i: int| 0 <= i < first_slash(s) implies s[i] != 47 by {
            if i > 0 {
                assert(t[i - 1] != 47);
            }
        }
    }
}

proof fn lemma_last_slash(s: Seq<u8>)
    ensures
        -1 <= last_slash(s) < s.len(),
        last_slash(s) >= 0 ==> s[last_slash(s)] == 47,
        forall|i: int| last_slash(s) < i < s.len() ==> s[i] != 47,
    decreases s.len(),
{
    if s.len() > 0 && s.last() != 47 {
        let t = s.drop_last();
        lemma_last_slash(t);
        assert forall|i: int| last_slash(s) < i < s.len() implies s[i] != 47 by {
            if i < t.len() {
                assert(t[i] != 47);
            }
        }
    }
}

/// The parts of a path are the parts of its parent and its name.
pub proof fn lemma_split_last(s: Seq<u8>)
    ensures
        last_slash(s) < 0 ==> split(s) == seq![s],
        last_slash(s) >= 0 ==> split(s) == split(s.take(last_slash(s))).push(
            s.skip(last_slash(s) + 1),
        ),
    decreases s.len(),
{
    lemma_first_slash(s);
    lemma_last_slash(s);
    let n = first_slash(s);
    if n < s.len() {
        let t = s.skip(n + 1);
        lemma_last_slash(t);
        lemma_split_last(t);
        let k = last_slash(s);
        if last_slash(t) >= 0 {
            assert(s[n + 1 + last_slash(t)] == 47);
            assert(k == n + 1 + last_slash(t)) by {
                if k < n + 1 + last_slash(t) {
                    assert(false);
                }
                if k > n + 1 + last_slash(t) {
                    assert(t[k - n - 1] == 47);
                }
            }
            let p = s.take(k);
            lemma_first_slash(p);
            assert(first_slash(p) == n) by {
                if first_slash(p) < n {
                    assert(s[first_slash(p)] == p[first_slash(p)]);
                }
                if first_slash(p) > n {
                    assert(p[n] == s[n]);
                }
            }
            assert(p.take(n) =~= s.take(n));
            assert(p.skip(n + 1) =~= t.take(last_slash(t)));
            assert(s.skip(k + 1) =~= t.skip(last_slash(t) + 1));
            assert(split(s) =~= split(p).push(s.skip(k + 1)));
        } else {
            assert(k == n) by {
                if k > n {
                    assert(t[k - n - 1] == 47);
                }
            }
            let p = s.take(n);
            lemma_first_slash(p);
            assert(first_slash(p) == n) by {
                if first_slash(p) < n {
                    assert(s[first_slash(p)] == p[first_slash(p)]);
                }
            }
            assert(split(p) =~= seq![p]);
            assert(split(s) =~= split(p).push(s.skip(k + 1)));
        }
    } else if last_slash(s) >= 0 {
        assert(s[last_slash(s)] == 47);
    }
}

/// What is wrong with one component.
pub open spec fn component_fault(c: Seq<u8>) -> Option<RelPathError> {
    if c.len() == 0 {
        Some(RelPathError::EmptyComponent)
    } else if c == seq![46u8] {
        Some(RelPathError::DotComponent)
    } else if c == seq![46u8, 46u8] {
        Some(RelPathError::DotDotComponent)
    } else if c.len() > MAX_COMPONENT_LEN {
        Some(RelPathError::ComponentTooLong(c.len() as usize))
    } else {
        None
    }
}

/// What is wrong with the first faulty component of a list.
pub open spec fn components_fault(cs: Seq<Seq<u8>>) -> Option<RelPathError>
    decreases cs.len(),
{
    if cs.len() == 0 {
        None
    } else if component_fault(cs[0]) is Some {
        component_fault(cs[0])
    } else {
        components_fault(cs.drop_first())
    }
}

/// The reserved directory's name.
pub open spec fn reserved() -> Seq<u8> {
    seq![46u8, 100u8, 101u8, 108u8, 111u8, 99u8, 97u8, 108u8]
}

/// What is wrong with a path; the first rule that it breaks counts.
pub open spec fn path_fault(s: Seq<u8>) -> Option<RelPathError> {
    if s.len() == 0 {
        Some(RelPathError::Empty)
    } else if s.contains(0u8) {
        Some(RelPathError::Nul)
    } else if s[0] == 47 {
        Some(RelPathError::Absolute)
    } else if s.last() == 47 {
        Some(RelPathError::TrailingSlash)
    } else if components_fault(split(s)) is Some {
        components_fault(split(s))
    } else if split(s)[0] == reserved() {
        Some(RelPathError::Reserved)
    } else {
        None
    }
}

/// Whether bytes spell a path.
pub open spec fn valid_path(s: Seq<u8>) -> bool {
    path_fault(s) is None
}

/// The containing directory of a path, if it is not at the top.
pub open spec fn parent_of(s: Seq<u8>) -> Option<Seq<u8>> {
    if last_slash(s) < 0 {
        None
    } else {
        Some(s.take(last_slash(s)))
    }
}

/// The last component of a path.
pub open spec fn name_of(s: Seq<u8>) -> Seq<u8> {
    s.skip(last_slash(s) + 1)
}

/// A path with one more component.
pub open spec fn joined(s: Seq<u8>, name: Seq<u8>) -> Seq<u8> {
    s + seq![47u8] + name
}

/// Whether `a` is a proper ancestor directory of `b`.
pub open spec fn ancestor(a: Seq<u8>, b: Seq<u8>) -> bool {
    &&& b.len() > a.len()
    &&& b.take(a.len() as int) == a
    &&& b[a.len() as int] == 47
}

/// A list of components is without fault when each component is.
pub proof fn lemma_components_fault(cs: Seq<Seq<u8>>)
    ensures
        components_fault(cs) is None <==> forall|i: int|
            0 <= i < cs.len() ==> component_fault(#[trigger] cs[i]) is None,
    decreases cs.len(),
{
    if cs.len() > 0 {
        let t = cs.drop_first();
        lemma_components_fault(t);
        if components_fault(cs) is None {
            assert forall|i: int| 0 <= i < cs.len() implies component_fault(
                #[trigger] cs[i],
            ) is None by {
                if i > 0 {
                    assert(component_fault(t[i - 1]) is None);
                }
            }
        }
        if forall|i: int| 0 <= i < cs.len() ==> component_fault(#[trigger] cs[i]) is None {
            assert forall|i: int| 0 <= i < t.len() implies component_fault(
                #[trigger] t[i],
            ) is None by {
                assert(component_fault(cs[i + 1]) is None);
            }
        }
    }
}

proof fn lemma_split_nonempty(s: Seq<u8>)
    ensures
        split(s).len() > 0,
        split(s)[0] == s.take(first_slash(s)),
{
    lemma_first_slash(s);
    if first_slash(s) >= s.len() {
        assert(s.take(first_slash(s)) =~= s);
    }
}

/// The containing directory of a path is a path.
pub proof fn law_parent_valid(s: Seq<u8>)
    requires
        valid_path(s),
        parent_of(s) is Some,
    ensures
        valid_path(parent_of(s)->0),
{
    let k = last_slash(s);
    let p = s.take(k);
    lemma_last_slash(s);
    lemma_split_last(s);
    lemma_components_fault(split(s));
    lemma_components_fault(split(p));
    lemma_split_nonempty(s);
    lemma_split_nonempty(p);
    assert(k > 0) by {
        if k == 0 {
            assert(s[0] == 47);
        }
    }
    assert forall|i: int| 0 <= i < split(p).len() implies component_fault(
        #[trigger] split(p)[i],
    ) is None by {
        assert(split(s)[i] == split(p)[i]);
        assert(component_fault(split(s)[i]) is None);
    }
    assert forall|i: int| 0 <= i < p.len() implies p[i] != 0u8 by {
        assert(s[i] == p[i]);
        assert(s.contains(s[i]));
    }
    assert(!p.contains(0u8));
    assert(p[0] == s[0]);
    assert(split(p)[0] == split(s)[0]);
    if p.last() == 47 {
        lemma_split_last(p);
        lemma_last_slash(p);
        assert(last_slash(p) == p.len() - 1);
        assert(split(p).last() =~= Seq::empty());
        assert(component_fault(split(p)[split(p).len() - 1]) is None);
    }
}

/// A path is its containing directory joined with its name, its parent is an ancestor, and the
/// name is one component.
pub proof fn law_parent_join(s: Seq<u8>)
    requires
        parent_of(s) is Some,
    ensures
        joined(parent_of(s)->0, name_of(s)) == s,
        ancestor(parent_of(s)->0, s),
        forall|i: int| 0 <= i < name_of(s).len() ==> name_of(s)[i] != 47,
{
    lemma_last_slash(s);
    assert(joined(parent_of(s)->0, name_of(s)) =~= s);
}

/// Joining a directory and a single component, the parent is the directory again, the name is
/// the component, and there is one more component than before.
pub proof fn law_join_parent(s: Seq<u8>, name: Seq<u8>)
    requires
        forall|i: int| 0 <= i < name.len() ==> name[i] != 47,
    ensures
        parent_of(joined(s, name)) == Some(s),
        name_of(joined(s, name)) == name,
        split(joined(s, name)) == split(s).push(name),
{
    let j = joined(s, name);
    lemma_last_slash(j);
    let k = last_slash(j);
    assert(j[s.len() as int] == 47);
    assert(k == s.len()) by {
        if k > s.len() {
            assert(j[k] == name[k - s.len() - 1]);
        }
    }
    assert(j.take(k) =~= s);
    assert(j.skip(k + 1) =~= name);
    lemma_split_last(j);
}

/// Every directory comes before what it contains.
pub proof fn law_ancestor_first(a: Seq<u8>, b: Seq<u8>)
    requires
        ancestor(a, b),
    ensures
        a.before(b),
        lex_lt(a, b),
    decreases a.len(),
{
    if a.len() > 0 {
        let t = a.drop_first();
        let u = b.drop_first();
        assert(b.take(a.len() as int)[0] == b[0]);
        assert(u.take(t.len() as int) =~= b.take(a.len() as int).drop_first());
        assert(u[t.len() as int] == b[a.len() as int]);
        law_ancestor_first(t, u);
    }
}

/// Whatever contains a directory contains what the directory contains.
pub proof fn law_ancestor_chain(a: Seq<u8>, b: Seq<u8>, c: Seq<u8>)
    requires
        ancestor(a, b),
        ancestor(b, c),
    ensures
        ancestor(a, c),
{
    assert(c.take(a.len() as int) =~= c.take(b.len() as int).take(a.len() as int));
    assert(c.take(b.len() as int)[a.len() as int] == c[a.len() as int]);
}

/// The bytes of concatenated texts are the concatenated bytes.
pub proof fn lemma_encode_concat(a: Seq<char>, b: Seq<char>)
    ensures
        encode_utf8(a + b) == encode_utf8(a) + encode_utf8(b),
    decreases a.len(),
{
    if a.len() == 0 {
        assert(a + b =~= b);
        assert(encode_utf8(a) =~= Seq::<u8>::empty());
        assert(encode_utf8(a) + encode_utf8(b) =~= encode_utf8(b));
    } else {
        let t = a.drop_first();
        lemma_encode_concat(t, b);
        assert((a + b).drop_first() =~= t + b);
        assert((a + b)[0] == a[0]);
        assert(encode_utf8(a + b) =~= encode_utf8(a) + encode_utf8(b));
    }
}

proof fn lemma_encode_slash()
    ensures
        encode_utf8("/"@) == seq![47u8],
{
    reveal_strlit("/");
    assert(vstd::utf8::is_ascii_chars("/"@));
    vstd::utf8::is_ascii_chars_encode_utf8("/"@);
    assert(encode_utf8("/"@) =~= seq![47u8]);
}

/// A one-byte character stands between two boundaries.
pub proof fn lemma_ascii_boundary(text: Seq<char>, i: int)
    requires
        0 <= i < encode_utf8(text).len(),
        encode_utf8(text)[i] < 128,
    ensures
        vstd::utf8::is_char_boundary(encode_utf8(text), i),
        vstd::utf8::is_char_boundary(encode_utf8(text), i + 1),
{
    let b = encode_utf8(text);
    vstd::utf8::encode_utf8_valid_utf8(text);
    vstd::utf8::is_char_boundary_iff_is_leading_byte(b, i);
    assert(vstd::utf8::is_char_boundary(b, i));
    lemma_after_boundary(b, i);
}

/// After a one-byte character, the next one starts.
proof fn lemma_after_boundary(b: Seq<u8>, i: int)
    requires
        vstd::utf8::valid_utf8(b),
        0 <= i < b.len(),
        vstd::utf8::is_char_boundary(b, i),
        b[i] < 128,
    ensures
        vstd::utf8::is_char_boundary(b, i + 1),
    decreases b.len(),
{
    reveal_with_fuel(vstd::utf8::is_char_boundary, 3);
    if i > 0 {
        let rest = vstd::utf8::pop_first_scalar(b);
        let n = vstd::utf8::length_of_first_scalar(b);
        assert(rest[i - n] == b[i]);
        lemma_after_boundary(rest, i - n);
    } else {
        assert(vstd::utf8::length_of_first_scalar(b) == 1);
    }
}

/// Whether bytes can be one component of a path.
pub open spec fn good_component(c: Seq<u8>) -> bool {
    &&& component_fault(c) is None
    &&& !c.contains(0u8)
    &&& !c.contains(47u8)
}

/// A path's name is a good component.
pub proof fn lemma_name_good(s: Seq<u8>)
    requires
        valid_path(s),
    ensures
        good_component(name_of(s)),
{
    lemma_last_slash(s);
    lemma_split_last(s);
    lemma_components_fault(split(s));
    let c = name_of(s);
    if last_slash(s) < 0 {
        assert(c =~= s);
    }
    assert(split(s)[split(s).len() - 1] == c);
    if c.contains(0u8) {
        let i = choose|i: int| 0 <= i < c.len() && c[i] == 0u8;
        assert(s[last_slash(s) + 1 + i] == 0u8);
        assert(s.contains(0u8));
    }
    if c.contains(47u8) {
        let i = choose|i: int| 0 <= i < c.len() && c[i] == 47u8;
        assert(s[last_slash(s) + 1 + i] == 47u8);
    }
}

/// A path joined with a good component is a path.
pub proof fn law_join_valid(s: Seq<u8>, name: Seq<u8>)
    requires
        valid_path(s),
        good_component(name),
    ensures
        valid_path(joined(s, name)),
{
    assert forall|i: int| 0 <= i < name.len() implies name[i] != 47 by {
        assert(name.contains(name[i]));
    }
    law_join_parent(s, name);
    let j = joined(s, name);
    lemma_components_fault(split(s));
    lemma_components_fault(split(j));
    lemma_split_nonempty(s);
    assert forall|i: int| 0 <= i < split(j).len() implies component_fault(
        #[trigger] split(j)[i],
    ) is None by {
        if i < split(s).len() {
            assert(component_fault(split(s)[i]) is None);
        }
    }
    if j.contains(0u8) {
        let i = choose|i: int| 0 <= i < j.len() && j[i] == 0u8;
        if i < s.len() {
            assert(s.contains(s[i]));
        } else {
            assert(name.contains(name[i - s.len() - 1]));
        }
    }
    assert(j.last() == name.last());
    assert(name.contains(name.last()));
    assert(j[0] == s[0]);
    assert(split(j)[0] == split(s)[0]);
}

/// What has no slash is a name at the top.
pub proof fn lemma_no_slash(c: Seq<u8>)
    requires
        !c.contains(47u8),
    ensures
        parent_of(c) is None,
        name_of(c) == c,
{
    lemma_last_slash(c);
    if last_slash(c) >= 0 {
        assert(c.contains(c[last_slash(c)]));
    }
    assert(c.skip(0) =~= c);
}

/// A good component by itself is a path, unless it is the reserved name.
pub proof fn lemma_single_valid(name: Seq<u8>)
    requires
        good_component(name),
        name != reserved(),
    ensures
        valid_path(name),
{
    lemma_last_slash(name);
    if last_slash(name) >= 0 {
        assert(name.contains(name[last_slash(name)]));
    }
    lemma_split_last(name);
    lemma_components_fault(split(name));
    assert(name.contains(name[0]));
    assert(name.contains(name.last()));
}

/// A validated relative path inside a folder.
#[derive(Debug, PartialEq, Eq, PartialOrd, Ord, Hash)]
pub struct RelPath {
    text: String,
}

impl View for RelPath {
    type V = Seq<u8>;

    closed spec fn view(&self) -> Seq<u8> {
        encode_utf8(self.text@)
    }
}

impl DeepView for RelPath {
    type V = Seq<u8>;

    open spec fn deep_view(&self) -> Seq<u8> {
        self.view()
    }
}

impl RelPath {
    #[verifier::type_invariant]
    spec fn wf(self) -> bool {
        valid_path(encode_utf8(self.text@))
    }

    /// Validates and wraps.
    pub fn new(s: &str) -> (r: Result<RelPath, RelPathError>)
        ensures
            match r {
                Ok(p) => valid_path(s.spec_bytes()) && p@ == s.spec_bytes(),
                Err(e) => path_fault(s.spec_bytes()) == Some(e),
            },
    {
        let bytes = s.as_bytes();
        let ghost b = bytes@;
        if bytes.len() == 0 {
            return Err(RelPathError::Empty);
        }
        let mut i: usize = 0;
        while i < bytes.len()
            invariant
                i <= bytes.len(),
                bytes@ == b,
                b == s.spec_bytes(),
                b.len() > 0,
                forall|j: int| 0 <= j < i ==> #[trigger] b[j] != 0u8,
            decreases bytes.len() - i,
        {
            if bytes[i] == 0 {
                assert(b.contains(b[i as int]));
                return Err(RelPathError::Nul);
            }
            i = i + 1;
        }
        assert(!b.contains(0u8));
        if bytes[0] == 47 {
            return Err(RelPathError::Absolute);
        }
        if bytes[bytes.len() - 1] == 47 {
            return Err(RelPathError::TrailingSlash);
        }
        let mut start: usize = 0;
        let mut first_len: usize = 0;
        let mut more = true;
        proof {
            assert(b.skip(0) =~= b);
            lemma_split_nonempty(b);
            lemma_first_slash(b);
        }
        while more
            invariant
                start <= bytes.len(),
                bytes@ == b,
                more ==> components_fault(split(b)) == components_fault(split(b.skip(start as int))),
                !more ==> components_fault(split(b)) is None,
                start == 0 ==> more,
                start > 0 ==> first_len == first_slash(b),
                b == s.spec_bytes(),
                b.len() > 0,
                !b.contains(0u8),
                b[0] != 47,
                b.last() != 47,
            decreases bytes.len() - start + (if more { 1int } else { 0int }),
        {
            let ghost rest = b.skip(start as int);
            let mut end: usize = start;
            while end < bytes.len() && bytes[end] != 47
                invariant
                    start <= end <= bytes.len(),
                    bytes@ == b,
                    forall|j: int| start <= j < end ==> #[trigger] b[j] != 47,
                decreases bytes.len() - end,
            {
                end = end + 1;
            }
            proof {
                lemma_first_slash(rest);
                let n = first_slash(rest);
                if n < end - start {
                    assert(rest[n] == b[start + n]);
                }
                if n > end - start {
                    assert(rest[end - start] == b[end as int]);
                }
                assert(n == end - start);
                lemma_split_nonempty(rest);
                assert(rest.take(n) =~= b.subrange(start as int, end as int));
                assert(split(rest).drop_first() =~= if n >= rest.len() {
                    Seq::<Seq<u8>>::empty()
                } else {
                    split(rest.skip(n + 1))
                });
                if n < rest.len() {
                    assert(rest.skip(n + 1) =~= b.skip(end + 1));
                }
            }
            let c = slice_subrange(bytes, start, end);
            if c.len() == 0 {
                return Err(RelPathError::EmptyComponent);
            }
            if c.len() == 1 && c[0] == 46 {
                assert(c@ =~= seq![46u8]);
                return Err(RelPathError::DotComponent);
            }
            if c.len() == 2 && c[0] == 46 && c[1] == 46 {
                assert(c@ =~= seq![46u8, 46u8]);
                return Err(RelPathError::DotDotComponent);
            }
            if c.len() > MAX_COMPONENT_LEN {
                return Err(RelPathError::ComponentTooLong(c.len()));
            }
            assert(component_fault(c@) is None);
            if start == 0 {
                first_len = end;
                assert(rest =~= b);
            }
            if end == bytes.len() {
                assert(split(rest)[0] == c@);
                assert(components_fault(split(rest).drop_first()) is None);
                more = false;
                start = end;
            } else {
                start = end + 1;
            }
        }
        let first = slice_subrange(bytes, 0, first_len);
        assert(first@ =~= b.take(first_slash(b)));
        if is_reserved(first) {
            return Err(RelPathError::Reserved);
        }
        Ok(RelPath { text: s.to_owned() })
    }

    /// The path as text.
    pub fn as_str(&self) -> (r: &str)
        ensures
            r.spec_bytes() == self@,
            valid_path(self@),
    {
        proof {
            use_type_invariant(self);
        }
        self.text.as_str()
    }

    /// The path as a string of its own.
    pub fn to_string(&self) -> (r: String)
        ensures
            encode_utf8(r@) == self@,
    {
        self.text.clone()
    }

    /// The path's components, root first. Never empty.
    pub fn components(&self) -> (r: Vec<&str>)
        ensures
            r.len() == split(self@).len(),
            r.len() > 0,
            forall|i: int| 0 <= i < r.len() ==> (#[trigger] r@[i]).spec_bytes() == split(self@)[i],
    {
        let mut out: Vec<&str> = Vec::new();
        let mut rest: &str = self.text.as_str();
        let mut more = true;
        proof {
            lemma_split_nonempty(self@);
        }
        while more
            invariant
                more ==> split(self@).len() == out.len() + split(rest.spec_bytes()).len(),
                more ==> forall|i: int|
                    out.len() <= i < split(self@).len() ==> (#[trigger] split(self@)[i]) == split(
                        rest.spec_bytes(),
                    )[i - out.len()],
                !more ==> split(self@).len() == out.len(),
                forall|i: int|
                    0 <= i < out.len() ==> (#[trigger] out@[i]).spec_bytes() == split(self@)[i],
                split(self@).len() > 0,
            decreases rest.spec_bytes().len() + (if more { 1int } else { 0int }),
        {
            let bytes = rest.as_bytes();
            let ghost b = bytes@;
            let mut n: usize = 0;
            while n < bytes.len() && bytes[n] != 47
                invariant
                    n <= bytes.len(),
                    bytes@ == b,
                    forall|j: int| 0 <= j < n ==> #[trigger] b[j] != 47,
                decreases bytes.len() - n,
            {
                n = n + 1;
            }
            proof {
                lemma_first_slash(b);
                assert(first_slash(b) == n);
                lemma_split_nonempty(b);
                assert(split(self@)[out.len() as int] == split(b)[0]);
            }
            if n == bytes.len() {
                assert(b.take(n as int) =~= b);
                out.push(rest);
                more = false;
                rest = "";
                proof {
                    reveal_strlit("");
                    assert(""@ =~= Seq::empty());
                    assert("".spec_bytes() =~= Seq::<u8>::empty());
                }
            } else {
                proof {
                    lemma_ascii_boundary(rest@, n as int);
                }
                let (head, _) = rest.split_at(n);
                let (_, tail) = rest.split_at(n + 1);
                proof {
                    assert(head.spec_bytes() =~= b.take(n as int));
                    assert(tail.spec_bytes() =~= b.skip(n + 1));
                    assert forall|i: int|
                        out.len() + 1 <= i < split(self@).len() implies (#[trigger] split(self@)[i])
                        == split(tail.spec_bytes())[i - out.len() - 1] by {
                        assert(split(self@)[i] == split(b)[i - out.len()]);
                    }
                }
                out.push(head);
                rest = tail;
            }
        }
        out
    }

    /// Number of components. A top-level entry has depth 1.
    pub fn depth(&self) -> (r: usize)
        ensures
            r == split(self@).len(),
            r > 0,
    {
        self.components().len()
    }

    /// One past the offset of the last slash, or 0 if there is none.
    fn name_start(&self) -> (n: usize)
        ensures
            n == last_slash(self@) + 1,
            n <= self@.len(),
            n > 0 ==> self@[n - 1] == 47,
    {
        let bytes = self.text.as_str().as_bytes();
        let mut n: usize = bytes.len();
        while n > 0 && bytes[n - 1] != 47
            invariant
                n <= bytes.len(),
                bytes@ == self@,
                forall|j: int| n <= j < bytes.len() ==> #[trigger] bytes@[j] != 47,
            decreases n,
        {
            n = n - 1;
        }
        proof {
            lemma_last_slash(self@);
        }
        n
    }

    /// The last component.
    pub fn file_name(&self) -> (r: &str)
        ensures
            r.spec_bytes() == name_of(self@),
            r.spec_bytes() == split(self@).last(),
    {
        let n: usize = self.name_start();
        proof {
            lemma_last_slash(self@);
            lemma_split_last(self@);
        }
        if n == 0 {
            assert(self@.skip(0) =~= self@);
            self.text.as_str()
        } else {
            proof {
                lemma_ascii_boundary(self.text@, n - 1);
            }
            let (_, tail) = self.text.as_str().split_at(n);
            assert(tail.spec_bytes() =~= self@.skip(n as int));
            tail
        }
    }

    /// The containing directory, or `None` for a top-level entry.
    pub fn parent(&self) -> (r: Option<RelPath>)
        ensures
            r.deep_view() == parent_of(self@),
    {
        let n: usize = self.name_start();
        if n == 0 {
            None
        } else {
            proof {
                use_type_invariant(self);
                lemma_ascii_boundary(self.text@, n - 1);
                law_parent_valid(self@);
            }
            let (head, _) = self.text.as_str().split_at(n - 1);
            assert(head.spec_bytes() =~= self@.take(n - 1));
            Some(RelPath { text: head.to_owned() })
        }
    }

    /// Appends one component. Fails if `name` is not a valid single component.
    pub fn join(&self, name: &str) -> (r: Result<RelPath, RelPathError>)
        ensures
            match r {
                Ok(p) => {
                    &&& !name.spec_bytes().contains(47u8)
                    &&& valid_path(joined(self@, name.spec_bytes()))
                    &&& p@ == joined(self@, name.spec_bytes())
                },
                Err(e) => if name.spec_bytes().contains(47u8) {
                    e == RelPathError::EmptyComponent
                } else {
                    path_fault(joined(self@, name.spec_bytes())) == Some(e)
                },
            },
    {
        let bytes = name.as_bytes();
        let mut i: usize = 0;
        while i < bytes.len()
            invariant
                i <= bytes.len(),
                bytes@ == name.spec_bytes(),
                forall|j: int| 0 <= j < i ==> #[trigger] bytes@[j] != 47u8,
            decreases bytes.len() - i,
        {
            if bytes[i] == 47 {
                assert(bytes@.contains(bytes@[i as int]));
                return Err(RelPathError::EmptyComponent);
            }
            i = i + 1;
        }
        let mut text = self.text.clone();
        text.append("/");
        text.append(name);
        proof {
            lemma_encode_slash();
            lemma_encode_concat(self.text@, "/"@);
            lemma_encode_concat(self.text@ + "/"@, name@);
        }
        RelPath::new(text.as_str())
    }

    /// True if `self` is a proper ancestor directory of `other`.
    pub fn is_ancestor_of(&self, other: &RelPath) -> (r: bool)
        ensures
            r == ancestor(self@, other@),
    {
        let a = self.text.as_str().as_bytes();
        let b = other.text.as_str().as_bytes();
        if b.len() > a.len() {
            let head = slice_subrange(b, 0, a.len());
            assert(head@ =~= b@.take(a.len() as int));
            bytes_same(head, a) && b[a.len()] == 47
        } else {
            false
        }
    }
}

/// Whether a component is the reserved directory's name.
fn is_reserved(c: &[u8]) -> (r: bool)
    ensures
        r == (c@ == reserved()),
{
    let r = c.len() == 8 && c[0] == 46 && c[1] == 100 && c[2] == 101 && c[3] == 108 && c[4] == 111
        && c[5] == 99 && c[6] == 97 && c[7] == 108;
    proof {
        if r {
            assert(c@ =~= reserved());
        }
    }
    r
}

impl Clone for RelPath {
    fn clone(&self) -> (r: RelPath)
        ensures
            r@ == self@,
    {
        self.dup()
    }
}

impl FromStr for RelPath {
    type Err = RelPathError;

    fn from_str(s: &str) -> (r: Result<RelPath, RelPathError>)
        ensures
            match r {
                Ok(p) => valid_path(s.spec_bytes()) && p@ == s.spec_bytes(),
                Err(e) => path_fault(s.spec_bytes()) == Some(e),
            },
    {
        RelPath::new(s)
    }
}

impl Value for RelPath {
    fn dup(&self) -> (r: RelPath) {
        proof {
            use_type_invariant(self);
        }
        RelPath { text: self.text.clone() }
    }

    fn same(&self, other: &RelPath) -> (r: bool) {
        bytes_same(self.text.as_str().as_bytes(), other.text.as_str().as_bytes())
    }
}

impl Key for RelPath {
    type O = Seq<u8>;

    open spec fn key(&self) -> Seq<u8> {
        self@
    }

    fn less(&self, other: &RelPath) -> (r: bool) {
        bytes_less(self.text.as_str().as_bytes(), other.text.as_str().as_bytes())
    }

    fn copy_key(&self) -> (r: RelPath) {
        self.dup()
    }
}

} // verus!
