//! Identifiers: nodes, folders and batches, content hashes, and the host name that an entry
//! carries for display.
//!
//! Identifiers are sixteen bytes, content hashes thirty-two. They are ordered by their bytes and
//! shown as lowercase hexadecimal; the short form is the first eight digits.

use crate::order::{bytes_less, bytes_same, lex_lt, Ordered};
use crate::ordmap::{Key, Value};
use crate::text::{decimal_text, hex_digit, hex_string, hex_text, hex_value, push_decimal};
use std::str::FromStr;
use vstd::prelude::*;
use vstd::string::*;

verus! {

/// Number of bytes in every identifier.
pub const ID_LEN: usize = 16;

/// Error from parsing the hexadecimal form of an identifier or hash.
#[derive(Clone, Copy, Debug, PartialEq, Eq, Structural)]
pub enum ParseHexError {
    /// The input was not the expected number of bytes long.
    Length { expected: usize, got: usize },
    /// The byte at this offset is not a hexadecimal digit.
    NotHex(usize),
}

impl ParseHexError {
    /// What the error says.
    pub open spec fn text(self) -> Seq<char> {
        match self {
            ParseHexError::Length { expected, got } => "expected "@ + decimal_text(expected as nat)
                + " hex characters, got "@ + decimal_text(got as nat),
            ParseHexError::NotHex(at) => "not a hex digit at offset "@ + decimal_text(at as nat),
        }
    }

    /// The error as a sentence.
    pub fn to_string(&self) -> (r: String)
        ensures
            r@ == self.text(),
    {
        let mut out = String::new();
        match self {
            ParseHexError::Length { expected, got } => {
                out.append("expected ");
                push_decimal(&mut out, *expected as u64);
                out.append(" hex characters, got ");
                push_decimal(&mut out, *got as u64);
            },
            ParseHexError::NotHex(at) => {
                out.append("not a hex digit at offset ");
                push_decimal(&mut out, *at as u64);
            },
        }
        assert(out@ =~= self.text());
        out
    }
}

// ---- bytes and numbers ------------------------------------------------------

/// Bytes as a number, most significant first.
pub open spec fn be_value(b: Seq<u8>) -> nat
    decreases b.len(),
{
    if b.len() == 0 {
        0
    } else {
        be_value(b.drop_last()) * 256 + b.last() as nat
    }
}

/// A number as `n` bytes, most significant first.
pub open spec fn be_bytes(v: nat, n: nat) -> Seq<u8>
    decreases n,
{
    if n == 0 {
        Seq::empty()
    } else {
        be_bytes(v / 256, (n - 1) as nat).push((v % 256) as u8)
    }
}

/// How many values `n` bytes can hold.
pub open spec fn byte_range(n: nat) -> nat
    decreases n,
{
    if n == 0 {
        1
    } else {
        256 * byte_range((n - 1) as nat)
    }
}

pub proof fn lemma_byte_range_16()
    ensures
        byte_range(16) == u128::MAX + 1,
{
    reveal_with_fuel(byte_range, 17);
}

proof fn lemma_byte_range_grows(a: nat, b: nat)
    requires
        a <= b,
    ensures
        byte_range(a) <= byte_range(b),
        byte_range(a) > 0,
    decreases b,
{
    if a < b {
        lemma_byte_range_grows(a, (b - 1) as nat);
    } else if a > 0 {
        lemma_byte_range_grows((a - 1) as nat, (b - 1) as nat);
    }
}

proof fn lemma_be_value_bound(b: Seq<u8>)
    ensures
        be_value(b) < byte_range(b.len()),
    decreases b.len(),
{
    if b.len() > 0 {
        lemma_be_value_bound(b.drop_last());
    }
}

/// Writing a number as bytes and reading it back gives the number.
pub proof fn lemma_be_value_of_bytes(v: nat, n: nat)
    requires
        v < byte_range(n),
    ensures
        be_bytes(v, n).len() == n,
        be_value(be_bytes(v, n)) == v,
    decreases n,
{
    if n > 0 {
        lemma_be_value_of_bytes(v / 256, (n - 1) as nat);
        assert(be_bytes(v, n).drop_last() =~= be_bytes(v / 256, (n - 1) as nat));
    }
}

/// Reading bytes as a number and writing it back gives the bytes.
pub proof fn lemma_be_bytes_of_value(b: Seq<u8>)
    ensures
        be_bytes(be_value(b), b.len()) == b,
    decreases b.len(),
{
    if b.len() > 0 {
        lemma_be_bytes_of_value(b.drop_last());
        assert(b =~= b.drop_last().push(b.last()));
    } else {
        assert(b =~= Seq::empty());
    }
}

/// The value of bytes, by the first one.
proof fn lemma_be_value_front(b: Seq<u8>)
    requires
        b.len() > 0,
    ensures
        be_value(b) == b[0] * byte_range((b.len() - 1) as nat) + be_value(b.drop_first()),
    decreases b.len(),
{
    if b.len() == 1 {
        assert(b.drop_last() =~= Seq::empty());
        assert(b.drop_first() =~= Seq::empty());
        reveal_with_fuel(be_value, 2);
        assert(byte_range(0) == 1);
        assert(b[0] * 1 == b[0]);
    } else {
        let d = b.drop_last();
        lemma_be_value_front(d);
        assert(d.drop_first() =~= b.drop_first().drop_last());
        let r = byte_range((d.len() - 1) as nat);
        let x = b[0] as int;
        assert((x * r + be_value(d.drop_first())) * 256 == x * (256 * r) + be_value(
            d.drop_first(),
        ) * 256) by (nonlinear_arith);
    }
}

/// Equally long byte strings are ordered as the numbers they spell.
pub proof fn lemma_be_order(a: Seq<u8>, b: Seq<u8>)
    requires
        a.len() == b.len(),
    ensures
        lex_lt(a, b) <==> be_value(a) < be_value(b),
    decreases a.len(),
{
    if a.len() > 0 {
        lemma_be_value_front(a);
        lemma_be_value_front(b);
        lemma_be_order(a.drop_first(), b.drop_first());
        lemma_be_value_bound(a.drop_first());
        lemma_be_value_bound(b.drop_first());
        let r = byte_range((a.len() - 1) as nat) as int;
        let x = a[0] as int;
        let y = b[0] as int;
        if x < y {
            assert(x * r + r <= y * r) by (nonlinear_arith)
                requires
                    x < y,
                    r >= 0,
            ;
        }
        if y < x {
            assert(y * r + r <= x * r) by (nonlinear_arith)
                requires
                    y < x,
                    r >= 0,
            ;
        }
    }
}

/// Sixteen bytes as a number.
pub(crate) fn be_read(bytes: &[u8], from: usize) -> (r: u128)
    requires
        from + 16 <= bytes.len(),
    ensures
        r == be_value(bytes@.subrange(from as int, from + 16)),
{
    let mut v: u128 = 0;
    let mut i: usize = 0;
    proof {
        lemma_byte_range_16();
    }
    while i < 16
        invariant
            i <= 16,
            from + 16 <= bytes.len(),
            byte_range(16) == u128::MAX + 1,
            v == be_value(bytes@.subrange(from as int, from + i)),
        decreases 16 - i,
    {
        proof {
            let s = bytes@.subrange(from as int, from + i);
            let t = bytes@.subrange(from as int, from + i + 1);
            assert(t.drop_last() =~= s);
            lemma_be_value_bound(t);
            lemma_byte_range_grows((i + 1) as nat, 16);
        }
        v = v * 256 + bytes[from + i] as u128;
        i = i + 1;
    }
    v
}

/// A number as sixteen bytes.
pub(crate) fn be_write(v: u128) -> (r: [u8; 16])
    ensures
        r@ == be_bytes(v as nat, 16),
{
    let mut out: [u8; 16] = [0u8; 16];
    let mut rest: u128 = v;
    let mut i: usize = 16;
    assert(out@.skip(16) =~= Seq::empty());
    assert(be_bytes(v as nat, 16) =~= be_bytes(rest as nat, 16) + out@.skip(16));
    while i > 0
        invariant
            i <= 16,
            out@.len() == 16,
            be_bytes(v as nat, 16) == be_bytes(rest as nat, i as nat) + out@.skip(i as int),
        decreases i,
    {
        let ghost before = out@;
        i = i - 1;
        out[i] = (rest % 256) as u8;
        proof {
            assert(out@.skip(i as int) =~= seq![(rest % 256) as u8] + before.skip(i + 1));
            assert(be_bytes(rest as nat, (i + 1) as nat) =~= be_bytes(
                (rest / 256) as nat,
                i as nat,
            ).push((rest % 256) as u8));
            assert(be_bytes(v as nat, 16) =~= be_bytes((rest / 256) as nat, i as nat) + out@.skip(
                i as int,
            ));
        }
        rest = rest / 256;
    }
    assert(out@.skip(0) =~= out@);
    assert(be_bytes(v as nat, 16) =~= out@);
    out
}

/// What the hexadecimal text in `digits` spells, two digits to a byte.
pub open spec fn unhex(digits: Seq<u8>) -> Seq<u8> {
    Seq::new(
        digits.len() / 2,
        |i: int| (16 * hex_value(digits[2 * i])->0 + hex_value(digits[2 * i + 1])->0) as u8,
    )
}

/// What parsing `digits` as `n` bytes of hexadecimal gives.
pub open spec fn parses(
    digits: Seq<u8>,
    n: nat,
    r: Result<Seq<u8>, ParseHexError>,
) -> bool {
    match r {
        Ok(bytes) => {
            &&& digits.len() == 2 * n
            &&& forall|i: int| 0 <= i < digits.len() ==> hex_value(#[trigger] digits[i]) is Some
            &&& bytes == unhex(digits)
        },
        Err(ParseHexError::Length { expected, got }) => {
            &&& digits.len() != 2 * n
            &&& expected == 2 * n
            &&& got == digits.len()
        },
        Err(ParseHexError::NotHex(at)) => {
            &&& digits.len() == 2 * n
            &&& at < digits.len()
            &&& hex_value(digits[at as int]) is None
            &&& forall|i: int| 0 <= i < at ==> hex_value(#[trigger] digits[i]) is Some
        },
    }
}

/// Parses exactly `n` bytes of hexadecimal.
pub(crate) fn parse_hex(s: &str, n: usize) -> (r: Result<Vec<u8>, ParseHexError>)
    requires
        n <= 32,
    ensures
        parses(
            s.spec_bytes(),
            n as nat,
            match r {
                Ok(v) => Ok(v@),
                Err(e) => Err(e),
            },
        ),
{
    let bytes = s.as_bytes();
    if bytes.len() != n * 2 {
        return Err(ParseHexError::Length { expected: n * 2, got: bytes.len() });
    }
    let mut out: Vec<u8> = Vec::new();
    let mut i: usize = 0;
    while i < n
        invariant
            i <= n,
            n <= 32,
            bytes.len() == n * 2,
            out.len() == i,
            forall|j: int| 0 <= j < 2 * i ==> hex_value(#[trigger] bytes@[j]) is Some,
            forall|j: int| 0 <= j < i ==> #[trigger] out@[j] == unhex(bytes@)[j],
            bytes@ == s.spec_bytes(),
        decreases n - i,
    {
        let hi: u8 = match hex_digit(bytes[2 * i]) {
            Some(d) => d,
            None => {
                return Err(ParseHexError::NotHex(2 * i));
            },
        };
        let lo: u8 = match hex_digit(bytes[2 * i + 1]) {
            Some(d) => d,
            None => {
                return Err(ParseHexError::NotHex(2 * i + 1));
            },
        };
        out.push(16 * hi + lo);
        i = i + 1;
    }
    assert(out@ =~= unhex(bytes@));
    Ok(out)
}

/// The first eight hexadecimal digits of an identifier or hash, for display.
#[derive(Clone, Copy, Debug, PartialEq, Eq, Structural)]
pub struct Short {
    value: u32,
}

impl Short {
    /// The four bytes shown.
    pub closed spec fn bytes(&self) -> Seq<u8> {
        be_bytes(self.value as nat, 4)
    }

    pub(crate) fn of(bytes: &[u8; 16]) -> (r: Short)
        ensures
            r.bytes() == bytes@.take(4),
    {
        let a: u32 = bytes[0] as u32;
        let b: u32 = bytes[1] as u32;
        let c: u32 = bytes[2] as u32;
        let d: u32 = bytes[3] as u32;
        let value: u32 = ((a * 256 + b) * 256 + c) * 256 + d;
        proof {
            reveal_with_fuel(be_value, 5);
            let t = bytes@.take(4);
            assert(t.drop_last().drop_last().drop_last().drop_last() =~= Seq::empty());
            assert(be_value(t) == value);
            lemma_be_bytes_of_value(t);
        }
        Short { value }
    }

    /// The eight digits.
    pub fn to_string(&self) -> (r: String)
        ensures
            r@ == hex_text(self.bytes()),
    {
        let mut out: Vec<u8> = Vec::new();
        out.push((self.value / 16777216) as u8);
        out.push(((self.value / 65536) % 256) as u8);
        out.push(((self.value / 256) % 256) as u8);
        out.push((self.value % 256) as u8);
        proof {
            reveal_with_fuel(be_bytes, 5);
            let v = self.value as nat;
            assert(v / 256 / 256 == v / 65536);
            assert(v / 65536 / 256 == v / 16777216);
            assert(out@ =~= be_bytes(v, 4));
        }
        hex_string(out.as_slice())
    }
}

/// Identifies one installation. It never changes, and keys version vectors.
#[derive(Clone, Copy, Debug, PartialEq, Eq, PartialOrd, Ord, Hash, Structural)]
pub struct NodeId {
    value: u128,
}

impl NodeId {
    /// Number of bytes.
    pub const LEN: usize = 16;

    /// The identifier's bytes.
    pub closed spec fn bytes(&self) -> Seq<u8> {
        be_bytes(self.value as nat, 16)
    }

    /// The identifier as a number, most significant byte first.
    pub closed spec fn number(&self) -> u128 {
        self.value
    }

    /// Wraps bytes that the host produced.
    pub fn from_bytes(bytes: [u8; 16]) -> (r: NodeId)
        ensures
            r.bytes() == bytes@,
    {
        let value: u128 = be_read(bytes.as_slice(), 0);
        proof {
            assert(bytes@.subrange(0, 16) =~= bytes@);
            lemma_be_bytes_of_value(bytes@);
        }
        NodeId { value }
    }

    /// The raw bytes.
    pub fn as_bytes(&self) -> (r: [u8; 16])
        ensures
            r@ == self.bytes(),
    {
        be_write(self.value)
    }

    /// The short display form: the first eight hexadecimal digits.
    pub fn short(&self) -> (r: Short)
        ensures
            r.bytes() == self.bytes().take(4),
    {
        Short::of(&be_write(self.value))
    }

    /// Thirty-two lowercase hexadecimal digits.
    pub fn to_string(&self) -> (r: String)
        ensures
            r@ == hex_text(self.bytes()),
    {
        hex_string(be_write(self.value).as_slice())
    }

    /// The identifier with the name of its type.
    pub fn debug_text(&self) -> (r: String)
        ensures
            r@ == "NodeId("@ + hex_text(self.bytes()) + ")"@,
    {
        let mut out = String::new();
        out.append("NodeId(");
        out.append(self.to_string().as_str());
        out.append(")");
        assert(out@ =~= "NodeId("@ + hex_text(self.bytes()) + ")"@);
        out
    }

    /// Parses thirty-two hexadecimal digits.
    pub fn parse(s: &str) -> (r: Result<NodeId, ParseHexError>)
        ensures
            parses(
                s.spec_bytes(),
                16,
                match r {
                    Ok(id) => Ok(id.bytes()),
                    Err(e) => Err(e),
                },
            ),
    {
        match parse_hex(s, 16) {
            Ok(v) => {
                let value: u128 = be_read(v.as_slice(), 0);
                proof {
                    assert(v@.subrange(0, 16) =~= v@);
                    lemma_be_bytes_of_value(v@);
                }
                Ok(NodeId { value })
            },
            Err(e) => Err(e),
        }
    }

    /// Two identifiers are the same when their bytes are.
    pub proof fn law_bytes(a: NodeId, b: NodeId)
        ensures
            a.bytes().len() == 16,
            a == b <==> a.bytes() == b.bytes(),
    {
        lemma_byte_range_16();
        lemma_be_value_of_bytes(a.value as nat, 16);
        lemma_be_value_of_bytes(b.value as nat, 16);
    }

    /// Identifiers are ordered by their bytes.
    pub proof fn law_byte_order(a: NodeId, b: NodeId)
        ensures
            a.before(b) <==> lex_lt(a.bytes(), b.bytes()),
    {
        lemma_byte_range_16();
        lemma_be_value_of_bytes(a.value as nat, 16);
        lemma_be_value_of_bytes(b.value as nat, 16);
        lemma_be_order(a.bytes(), b.bytes());
    }
}

impl FromStr for NodeId {
    type Err = ParseHexError;

    fn from_str(s: &str) -> (r: Result<NodeId, ParseHexError>)
        ensures
            parses(
                s.spec_bytes(),
                16,
                match r {
                    Ok(id) => Ok(id.bytes()),
                    Err(e) => Err(e),
                },
            ),
    {
        NodeId::parse(s)
    }
}

impl DeepView for NodeId {
    type V = NodeId;

    open spec fn deep_view(&self) -> NodeId {
        *self
    }
}

impl Ordered for NodeId {
    open spec fn before(self, other: NodeId) -> bool {
        self.number() < other.number()
    }

    proof fn irreflexive(a: NodeId) {
    }

    proof fn transitive(a: NodeId, b: NodeId, c: NodeId) {
    }

    proof fn total(a: NodeId, b: NodeId) {
    }
}

impl Key for NodeId {
    type O = NodeId;

    open spec fn key(&self) -> NodeId {
        *self
    }

    fn less(&self, other: &NodeId) -> (r: bool) {
        let r = self.value < other.value;
        assert(r == (self.number() < other.number()));
        assert(r == self.before(*other));
        assert(self.key() == *self);
        assert(other.key() == *other);
        r
    }

    fn copy_key(&self) -> (r: NodeId) {
        *self
    }
}

impl Value for NodeId {
    fn dup(&self) -> (r: NodeId) {
        *self
    }

    fn same(&self, other: &NodeId) -> (r: bool) {
        *self == *other
    }
}

/// Identifies a synced folder across machines.
#[derive(Clone, Copy, Debug, PartialEq, Eq, PartialOrd, Ord, Hash, Structural)]
pub struct FolderId {
    value: u128,
}

impl FolderId {
    /// Number of bytes.
    pub const LEN: usize = 16;

    /// The identifier's bytes.
    pub closed spec fn bytes(&self) -> Seq<u8> {
        be_bytes(self.value as nat, 16)
    }

    /// The identifier as a number, most significant byte first.
    pub closed spec fn number(&self) -> u128 {
        self.value
    }

    /// Wraps bytes that the host produced.
    pub fn from_bytes(bytes: [u8; 16]) -> (r: FolderId)
        ensures
            r.bytes() == bytes@,
    {
        let value: u128 = be_read(bytes.as_slice(), 0);
        proof {
            assert(bytes@.subrange(0, 16) =~= bytes@);
            lemma_be_bytes_of_value(bytes@);
        }
        FolderId { value }
    }

    /// The raw bytes.
    pub fn as_bytes(&self) -> (r: [u8; 16])
        ensures
            r@ == self.bytes(),
    {
        be_write(self.value)
    }

    /// The short display form: the first eight hexadecimal digits.
    pub fn short(&self) -> (r: Short)
        ensures
            r.bytes() == self.bytes().take(4),
    {
        Short::of(&be_write(self.value))
    }

    /// Thirty-two lowercase hexadecimal digits.
    pub fn to_string(&self) -> (r: String)
        ensures
            r@ == hex_text(self.bytes()),
    {
        hex_string(be_write(self.value).as_slice())
    }

    /// The identifier with the name of its type.
    pub fn debug_text(&self) -> (r: String)
        ensures
            r@ == "FolderId("@ + hex_text(self.bytes()) + ")"@,
    {
        let mut out = String::new();
        out.append("FolderId(");
        out.append(self.to_string().as_str());
        out.append(")");
        assert(out@ =~= "FolderId("@ + hex_text(self.bytes()) + ")"@);
        out
    }

    /// Parses thirty-two hexadecimal digits.
    pub fn parse(s: &str) -> (r: Result<FolderId, ParseHexError>)
        ensures
            parses(
                s.spec_bytes(),
                16,
                match r {
                    Ok(id) => Ok(id.bytes()),
                    Err(e) => Err(e),
                },
            ),
    {
        match parse_hex(s, 16) {
            Ok(v) => {
                let value: u128 = be_read(v.as_slice(), 0);
                proof {
                    assert(v@.subrange(0, 16) =~= v@);
                    lemma_be_bytes_of_value(v@);
                }
                Ok(FolderId { value })
            },
            Err(e) => Err(e),
        }
    }

    /// Two identifiers are the same when their bytes are.
    pub proof fn law_bytes(a: FolderId, b: FolderId)
        ensures
            a.bytes().len() == 16,
            a == b <==> a.bytes() == b.bytes(),
    {
        lemma_byte_range_16();
        lemma_be_value_of_bytes(a.value as nat, 16);
        lemma_be_value_of_bytes(b.value as nat, 16);
    }

    /// Identifiers are ordered by their bytes.
    pub proof fn law_byte_order(a: FolderId, b: FolderId)
        ensures
            a.before(b) <==> lex_lt(a.bytes(), b.bytes()),
    {
        lemma_byte_range_16();
        lemma_be_value_of_bytes(a.value as nat, 16);
        lemma_be_value_of_bytes(b.value as nat, 16);
        lemma_be_order(a.bytes(), b.bytes());
    }
}

impl FromStr for FolderId {
    type Err = ParseHexError;

    fn from_str(s: &str) -> (r: Result<FolderId, ParseHexError>)
        ensures
            parses(
                s.spec_bytes(),
                16,
                match r {
                    Ok(id) => Ok(id.bytes()),
                    Err(e) => Err(e),
                },
            ),
    {
        FolderId::parse(s)
    }
}

impl DeepView for FolderId {
    type V = FolderId;

    open spec fn deep_view(&self) -> FolderId {
        *self
    }
}

impl Ordered for FolderId {
    open spec fn before(self, other: FolderId) -> bool {
        self.number() < other.number()
    }

    proof fn irreflexive(a: FolderId) {
    }

    proof fn transitive(a: FolderId, b: FolderId, c: FolderId) {
    }

    proof fn total(a: FolderId, b: FolderId) {
    }
}

impl Key for FolderId {
    type O = FolderId;

    open spec fn key(&self) -> FolderId {
        *self
    }

    fn less(&self, other: &FolderId) -> (r: bool) {
        let r = self.value < other.value;
        assert(r == (self.number() < other.number()));
        assert(r == self.before(*other));
        assert(self.key() == *self);
        assert(other.key() == *other);
        r
    }

    fn copy_key(&self) -> (r: FolderId) {
        *self
    }
}

impl Value for FolderId {
    fn dup(&self) -> (r: FolderId) {
        *self
    }

    fn same(&self, other: &FolderId) -> (r: bool) {
        *self == *other
    }
}

/// Identifies one batch of announced changes.
#[derive(Clone, Copy, Debug, PartialEq, Eq, PartialOrd, Ord, Hash, Structural)]
pub struct BatchId {
    value: u128,
}

impl BatchId {
    /// Number of bytes.
    pub const LEN: usize = 16;

    /// The identifier's bytes.
    pub closed spec fn bytes(&self) -> Seq<u8> {
        be_bytes(self.value as nat, 16)
    }

    /// The identifier as a number, most significant byte first.
    pub closed spec fn number(&self) -> u128 {
        self.value
    }

    /// Wraps bytes that the host produced.
    pub fn from_bytes(bytes: [u8; 16]) -> (r: BatchId)
        ensures
            r.bytes() == bytes@,
    {
        let value: u128 = be_read(bytes.as_slice(), 0);
        proof {
            assert(bytes@.subrange(0, 16) =~= bytes@);
            lemma_be_bytes_of_value(bytes@);
        }
        BatchId { value }
    }

    /// The raw bytes.
    pub fn as_bytes(&self) -> (r: [u8; 16])
        ensures
            r@ == self.bytes(),
    {
        be_write(self.value)
    }

    /// The short display form: the first eight hexadecimal digits.
    pub fn short(&self) -> (r: Short)
        ensures
            r.bytes() == self.bytes().take(4),
    {
        Short::of(&be_write(self.value))
    }

    /// Thirty-two lowercase hexadecimal digits.
    pub fn to_string(&self) -> (r: String)
        ensures
            r@ == hex_text(self.bytes()),
    {
        hex_string(be_write(self.value).as_slice())
    }

    /// The identifier with the name of its type.
    pub fn debug_text(&self) -> (r: String)
        ensures
            r@ == "BatchId("@ + hex_text(self.bytes()) + ")"@,
    {
        let mut out = String::new();
        out.append("BatchId(");
        out.append(self.to_string().as_str());
        out.append(")");
        assert(out@ =~= "BatchId("@ + hex_text(self.bytes()) + ")"@);
        out
    }

    /// Parses thirty-two hexadecimal digits.
    pub fn parse(s: &str) -> (r: Result<BatchId, ParseHexError>)
        ensures
            parses(
                s.spec_bytes(),
                16,
                match r {
                    Ok(id) => Ok(id.bytes()),
                    Err(e) => Err(e),
                },
            ),
    {
        match parse_hex(s, 16) {
            Ok(v) => {
                let value: u128 = be_read(v.as_slice(), 0);
                proof {
                    assert(v@.subrange(0, 16) =~= v@);
                    lemma_be_bytes_of_value(v@);
                }
                Ok(BatchId { value })
            },
            Err(e) => Err(e),
        }
    }

    /// Two identifiers are the same when their bytes are.
    pub proof fn law_bytes(a: BatchId, b: BatchId)
        ensures
            a.bytes().len() == 16,
            a == b <==> a.bytes() == b.bytes(),
    {
        lemma_byte_range_16();
        lemma_be_value_of_bytes(a.value as nat, 16);
        lemma_be_value_of_bytes(b.value as nat, 16);
    }

    /// Identifiers are ordered by their bytes.
    pub proof fn law_byte_order(a: BatchId, b: BatchId)
        ensures
            a.before(b) <==> lex_lt(a.bytes(), b.bytes()),
    {
        lemma_byte_range_16();
        lemma_be_value_of_bytes(a.value as nat, 16);
        lemma_be_value_of_bytes(b.value as nat, 16);
        lemma_be_order(a.bytes(), b.bytes());
    }
}

impl FromStr for BatchId {
    type Err = ParseHexError;

    fn from_str(s: &str) -> (r: Result<BatchId, ParseHexError>)
        ensures
            parses(
                s.spec_bytes(),
                16,
                match r {
                    Ok(id) => Ok(id.bytes()),
                    Err(e) => Err(e),
                },
            ),
    {
        BatchId::parse(s)
    }
}

impl DeepView for BatchId {
    type V = BatchId;

    open spec fn deep_view(&self) -> BatchId {
        *self
    }
}

impl Ordered for BatchId {
    open spec fn before(self, other: BatchId) -> bool {
        self.number() < other.number()
    }

    proof fn irreflexive(a: BatchId) {
    }

    proof fn transitive(a: BatchId, b: BatchId, c: BatchId) {
    }

    proof fn total(a: BatchId, b: BatchId) {
    }
}

impl Key for BatchId {
    type O = BatchId;

    open spec fn key(&self) -> BatchId {
        *self
    }

    fn less(&self, other: &BatchId) -> (r: bool) {
        let r = self.value < other.value;
        assert(r == (self.number() < other.number()));
        assert(r == self.before(*other));
        assert(self.key() == *self);
        assert(other.key() == *other);
        r
    }

    fn copy_key(&self) -> (r: BatchId) {
        *self
    }
}

impl Value for BatchId {
    fn dup(&self) -> (r: BatchId) {
        *self
    }

    fn same(&self, other: &BatchId) -> (r: bool) {
        *self == *other
    }
}

impl BatchId {
    /// The identifier `steps` places after this one, counting on from the largest to zero.
    pub closed spec fn after(self, steps: int) -> BatchId {
        BatchId { value: ((self.value + steps) % (u128::MAX + 1)) as u128 }
    }

    /// The identifier `steps` places after this one, counting on from the largest to zero.
    pub fn successor(self, steps: u128) -> (r: BatchId)
        ensures
            r == self.after(steps as int),
            r.number() == (self.number() + steps) % (u128::MAX + 1),
    {
        BatchId { value: self.value.wrapping_add(steps) }
    }
}

/// Counting on twice is counting on once, by both.
pub proof fn law_counting_on(id: BatchId, a: int, b: int)
    requires
        0 <= a,
        0 <= b,
    ensures
        id.after(a).after(b) == id.after(a + b),
        id.after(0) == id,
        id.after(a).number() == (id.number() + a) % (u128::MAX + 1),
{
    let m = u128::MAX + 1;
    let x = id.value as int;
    vstd::arithmetic::div_mod::lemma_add_mod_noop(x + a, b, m);
    vstd::arithmetic::div_mod::lemma_mod_bound(x + a, m);
    vstd::arithmetic::div_mod::lemma_mod_bound(x + a + b, m);
    vstd::arithmetic::div_mod::lemma_mod_twice(x + a, m);
    vstd::arithmetic::div_mod::lemma_add_mod_noop((x + a) % m, b, m);
}

/// Longest allowed host name.
pub const HOST_NAME_MAX: usize = 63;

/// Why a string is not a valid [`HostName`].
#[derive(Clone, Copy, Debug, PartialEq, Eq, Structural)]
pub enum HostNameError {
    /// Longer than allowed; holds the length in bytes.
    TooLong(usize),
    /// A character outside `[a-z0-9-]` at this byte offset.
    BadChar(usize),
}

impl HostNameError {
    /// What the error says.
    pub open spec fn text(self) -> Seq<char> {
        match self {
            HostNameError::TooLong(n) => "hostname is "@ + decimal_text(n as nat)
                + " bytes, at most 63 allowed"@,
            HostNameError::BadChar(at) => "hostname has a character outside [a-z0-9-] at offset "@
                + decimal_text(at as nat),
        }
    }

    /// The error as a sentence.
    pub fn to_string(&self) -> (r: String)
        ensures
            r@ == self.text(),
    {
        let mut out = String::new();
        match self {
            HostNameError::TooLong(n) => {
                out.append("hostname is ");
                push_decimal(&mut out, *n as u64);
                out.append(" bytes, at most 63 allowed");
            },
            HostNameError::BadChar(at) => {
                out.append("hostname has a character outside [a-z0-9-] at offset ");
                push_decimal(&mut out, *at as u64);
            },
        }
        assert(out@ =~= self.text());
        out
    }
}

/// Whether a byte may stand in a host name: a lowercase letter, a digit or a hyphen.
pub open spec fn host_byte(b: u8) -> bool {
    97 <= b <= 122 || 48 <= b <= 57 || b == 45
}

/// Whether bytes spell a host name.
pub open spec fn valid_host(s: Seq<u8>) -> bool {
    &&& s.len() <= HOST_NAME_MAX
    &&& forall|i: int| 0 <= i < s.len() ==> host_byte(#[trigger] s[i])
}

/// A host name: lowercase letters, digits and hyphens, at most sixty-three bytes. May be empty.
/// It serves names and display.
#[derive(Debug, PartialEq, Eq, PartialOrd, Ord, Hash)]
pub struct HostName {
    text: String,
}

impl View for HostName {
    type V = Seq<u8>;

    closed spec fn view(&self) -> Seq<u8> {
        vstd::utf8::encode_utf8(self.text@)
    }
}

impl DeepView for HostName {
    type V = Seq<u8>;

    open spec fn deep_view(&self) -> Seq<u8> {
        self.view()
    }
}

impl HostName {
    /// Longest allowed host name.
    pub const MAX_LEN: usize = HOST_NAME_MAX;

    #[verifier::type_invariant]
    spec fn wf(self) -> bool {
        valid_host(vstd::utf8::encode_utf8(self.text@))
    }

    /// Validates and wraps.
    pub fn new(s: &str) -> (r: Result<HostName, HostNameError>)
        ensures
            match r {
                Ok(h) => valid_host(s.spec_bytes()) && h@ == s.spec_bytes(),
                Err(HostNameError::TooLong(n)) => n == s.spec_bytes().len() && n > HOST_NAME_MAX,
                Err(HostNameError::BadChar(at)) => {
                    &&& s.spec_bytes().len() <= HOST_NAME_MAX
                    &&& at < s.spec_bytes().len()
                    &&& !host_byte(s.spec_bytes()[at as int])
                    &&& forall|i: int| 0 <= i < at ==> host_byte(#[trigger] s.spec_bytes()[i])
                },
            },
    {
        let bytes = s.as_bytes();
        if bytes.len() > HOST_NAME_MAX {
            return Err(HostNameError::TooLong(bytes.len()));
        }
        let mut i: usize = 0;
        while i < bytes.len()
            invariant
                i <= bytes.len(),
                bytes@ == s.spec_bytes(),
                bytes.len() <= HOST_NAME_MAX,
                forall|j: int| 0 <= j < i ==> host_byte(#[trigger] bytes@[j]),
            decreases bytes.len() - i,
        {
            let b: u8 = bytes[i];
            if !((97 <= b && b <= 122) || (48 <= b && b <= 57) || b == 45) {
                return Err(HostNameError::BadChar(i));
            }
            i = i + 1;
        }
        Ok(HostName { text: s.to_owned() })
    }

    /// The empty host name.
    pub fn empty() -> (r: HostName)
        ensures
            r@ == Seq::<u8>::empty(),
    {
        let text = String::new();
        assert(text@ =~= Seq::empty());
        assert(vstd::utf8::encode_utf8(text@) =~= Seq::<u8>::empty());
        HostName { text }
    }

    /// The host name as text.
    pub fn as_str(&self) -> (r: &str)
        ensures
            r.spec_bytes() == self@,
            valid_host(self@),
    {
        proof {
            use_type_invariant(self);
        }
        self.text.as_str()
    }

    /// The host name as a string of its own.
    pub fn to_string(&self) -> (r: String)
        ensures
            vstd::utf8::encode_utf8(r@) == self@,
    {
        self.text.clone()
    }

    /// True for the empty host name.
    pub fn is_empty(&self) -> (r: bool)
        ensures
            r == (self@ == Seq::<u8>::empty()),
    {
        let r = self.text.as_str().as_bytes().len() == 0;
        proof {
            if r {
                assert(self@ =~= Seq::<u8>::empty());
            }
        }
        r
    }
}

impl Clone for HostName {
    fn clone(&self) -> (r: HostName)
        ensures
            r@ == self@,
    {
        self.dup()
    }
}

impl FromStr for HostName {
    type Err = HostNameError;

    fn from_str(s: &str) -> (r: Result<HostName, HostNameError>)
        ensures
            match r {
                Ok(h) => valid_host(s.spec_bytes()) && h@ == s.spec_bytes(),
                Err(HostNameError::TooLong(n)) => n == s.spec_bytes().len() && n > HOST_NAME_MAX,
                Err(HostNameError::BadChar(at)) => {
                    &&& s.spec_bytes().len() <= HOST_NAME_MAX
                    &&& at < s.spec_bytes().len()
                    &&& !host_byte(s.spec_bytes()[at as int])
                    &&& forall|i: int| 0 <= i < at ==> host_byte(#[trigger] s.spec_bytes()[i])
                },
            },
    {
        HostName::new(s)
    }
}

impl Value for HostName {
    fn dup(&self) -> (r: HostName) {
        proof {
            use_type_invariant(self);
        }
        HostName { text: self.text.clone() }
    }

    fn same(&self, other: &HostName) -> (r: bool) {
        bytes_same(self.text.as_str().as_bytes(), other.text.as_str().as_bytes())
    }
}

impl Key for HostName {
    type O = Seq<u8>;

    open spec fn key(&self) -> Seq<u8> {
        self@
    }

    fn less(&self, other: &HostName) -> (r: bool) {
        bytes_less(self.text.as_str().as_bytes(), other.text.as_str().as_bytes())
    }

    fn copy_key(&self) -> (r: HostName) {
        self.dup()
    }
}

} // verus!
