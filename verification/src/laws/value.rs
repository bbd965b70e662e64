//! Laws of identifiers, hashes and entries.

use crate::entry::{EntryView, Observed};
use crate::id::{parses, unhex, ParseHexError};
use crate::path::lemma_encode_concat;
use crate::text::{digit_char, hex_text, hex_value};
use vstd::prelude::*;
use vstd::utf8::encode_utf8;

verus! {

proof fn lemma_digit(d: int)
    requires
        0 <= d < 16,
    ensures
        encode_utf8(seq![digit_char(d)]).len() == 1,
        hex_value(encode_utf8(seq![digit_char(d)])[0]) == Some(d as u8),
{
    let s = seq![digit_char(d)];
    assert(vstd::utf8::is_ascii_chars(s));
    vstd::utf8::is_ascii_chars_encode_utf8(s);
    assert(encode_utf8(s)[0] == s[0] as u8);
}

proof fn lemma_hex_bytes(bytes: Seq<u8>)
    ensures
        encode_utf8(hex_text(bytes)).len() == 2 * bytes.len(),
        forall|i: int|
            0 <= i < 2 * bytes.len() ==> hex_value(#[trigger] encode_utf8(hex_text(bytes))[i])
                is Some,
        forall|i: int|
            0 <= i < bytes.len() ==> 16 * hex_value(encode_utf8(hex_text(bytes))[2 * i])->0
                + hex_value(encode_utf8(hex_text(bytes))[2 * i + 1])->0 == #[trigger] bytes[i],
    decreases bytes.len(),
{
    if bytes.len() > 0 {
        let front = bytes.drop_last();
        let b = bytes.last();
        let t = hex_text(front);
        let x = seq![digit_char(b as int / 16)];
        let y = seq![digit_char(b as int % 16)];
        lemma_hex_bytes(front);
        lemma_digit(b as int / 16);
        lemma_digit(b as int % 16);
        assert(hex_text(bytes) =~= t + x + y);
        lemma_encode_concat(t + x, y);
        lemma_encode_concat(t, x);
        let e = encode_utf8(t);
        let f = encode_utf8(hex_text(bytes));
        assert(f == e + encode_utf8(x) + encode_utf8(y));
        assert forall|i: int| 0 <= i < bytes.len() implies 16 * hex_value(f[2 * i])->0 + hex_value(
            f[2 * i + 1],
        )->0 == #[trigger] bytes[i] by {
            if i < front.len() {
                assert(front[i] == bytes[i]);
                assert(f[2 * i] == e[2 * i]);
                assert(f[2 * i + 1] == e[2 * i + 1]);
            }
        }
    }
}

/// What an identifier or a hash is printed as parses back to it, and to nothing else.
pub proof fn law_hex_round_trip(bytes: Seq<u8>, r: Result<Seq<u8>, ParseHexError>)
    requires
        parses(encode_utf8(hex_text(bytes)), bytes.len(), r),
    ensures
        r == Ok::<Seq<u8>, ParseHexError>(bytes),
{
    lemma_hex_bytes(bytes);
    assert(unhex(encode_utf8(hex_text(bytes))) =~= bytes);
}

/// Parsing has one outcome for every text.
pub proof fn law_parsing_is_determined(
    digits: Seq<u8>,
    n: nat,
    a: Result<Seq<u8>, ParseHexError>,
    b: Result<Seq<u8>, ParseHexError>,
)
    requires
        parses(digits, n, a),
        parses(digits, n, b),
    ensures
        a == b,
{
}

/// Having the same content is an equivalence.
pub proof fn law_same_content_is_an_equivalence(a: EntryView, b: EntryView, c: EntryView)
    ensures
        a.same_content(a),
        a.same_content(b) ==> b.same_content(a),
        a.same_content(b) && b.same_content(c) ==> a.same_content(c),
{
}

/// The normal form of an observation is its own normal form.
pub proof fn law_normal_form_idempotent(o: Observed)
    ensures
        o.normal_form().normal_form() == o.normal_form(),
{
}

} // verus!
