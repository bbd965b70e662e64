//! What numerals, times and paths spell.

use crate::brake::HoldReason;
use crate::id::{host_byte, valid_host};
use crate::path::{component_fault, last_slash, name_of, parent_of, reserved, split, valid_path};
use crate::text::{decimal_text, digit_char, fixed_text, hex_value};
use crate::time::{civil, day_number, utc_text, valid_date, NANOS_PER_SECOND};
use vstd::prelude::*;

verus! {

/// The number that decimal digits spell.
pub open spec fn reads(s: Seq<char>) -> int
    decreases s.len(),
{
    if s.len() == 0 {
        0
    } else {
        10 * reads(s.drop_last()) + (s.last() as int - 48)
    }
}

/// Whether text is made of decimal digits.
pub open spec fn digits(s: Seq<char>) -> bool {
    forall|i: int| 0 <= i < s.len() ==> 48 <= (#[trigger] s[i]) as int <= 57
}

/// Ten to some power.
pub open spec fn ten_to(n: nat) -> int
    decreases n,
{
    if n == 0 {
        1
    } else {
        10 * ten_to((n - 1) as nat)
    }
}

proof fn lemma_ten_to(n: nat)
    ensures
        ten_to(n) > 0,
    decreases n,
{
    if n > 0 {
        lemma_ten_to((n - 1) as nat);
    }
}

/// A number in decimal reads as the number, and has no leading zero but for zero itself.
pub proof fn law_decimal_reads_back(n: nat)
    ensures
        digits(decimal_text(n)),
        reads(decimal_text(n)) == n,
        decimal_text(n).len() > 0,
        n > 0 ==> decimal_text(n)[0] as int > 48,
    decreases n,
{
    let t = decimal_text(n);
    if n < 10 {
        assert(t.drop_last() =~= Seq::empty());
        assert(digit_char(n as int) as int == 48 + n);
        assert(reads(Seq::<char>::empty()) == 0);
        assert(reads(t) == 10 * reads(t.drop_last()) + (t.last() as int - 48));
    } else {
        law_decimal_reads_back(n / 10);
        let u = decimal_text(n / 10);
        assert(t.drop_last() =~= u);
        assert(digit_char((n % 10) as int) as int == 48 + n % 10);
        assert(t[0] == u[0]);
    }
}

/// A number in so many digits reads as the number, without what does not fit.
pub proof fn law_fixed_reads_back(n: nat, width: nat)
    ensures
        digits(fixed_text(n, width)),
        fixed_text(n, width).len() == width,
        n < ten_to(width) ==> reads(fixed_text(n, width)) == n,
    decreases width,
{
    if width > 0 {
        let w = (width - 1) as nat;
        law_fixed_reads_back(n / 10, w);
        let t = fixed_text(n, width);
        assert(t.drop_last() =~= fixed_text(n / 10, w));
        assert(digit_char((n % 10) as int) as int == 48 + n % 10);
        lemma_ten_to(w);
    }
}

/// A time is spelled as the date and the time of day that it falls on: eight digits for the date,
/// a hyphen, and six for hours, minutes and seconds; put together again they give the second.
pub proof fn law_time_reads_back(nanos: int, y: int, m: int, d: int)
    requires
        ({
            let secs = nanos / NANOS_PER_SECOND as int;
            (y, m, d) == civil(secs / 86_400)
        }),
        valid_date(y, m, d),
        day_number(y, m, d) == (nanos / NANOS_PER_SECOND as int) / 86_400,
        0 <= y < 10_000,
    ensures
        ({
            let t = utc_text(nanos);
            let clock = t.subrange(9, 15);
            let h = reads(clock.take(2));
            let mi = reads(clock.subrange(2, 4));
            let s = reads(clock.skip(4));
            &&& t.len() == 15
            &&& reads(t.take(4)) == y
            &&& reads(t.subrange(4, 6)) == m
            &&& reads(t.subrange(6, 8)) == d
            &&& t[8] == '-'
            &&& 0 <= h < 24
            &&& 0 <= mi < 60
            &&& 0 <= s < 60
            &&& day_number(y, m, d) * 86_400 + h * 3600 + mi * 60 + s == nanos
                / NANOS_PER_SECOND as int
        }),
{
    let secs = nanos / NANOS_PER_SECOND as int;
    let second = (secs % 86_400) as nat;
    let t = utc_text(nanos);
    assert(ten_to(4) == 10_000 && ten_to(2) == 100) by {
        reveal_with_fuel(ten_to, 5);
    }
    let a = fixed_text(y as nat, 4);
    let b = fixed_text(m as nat, 2);
    let c = fixed_text(d as nat, 2);
    let h = fixed_text(second / 3600, 2);
    let i = fixed_text((second % 3600) / 60, 2);
    let s = fixed_text(second % 60, 2);
    law_fixed_reads_back(y as nat, 4);
    law_fixed_reads_back(m as nat, 2);
    law_fixed_reads_back(d as nat, 2);
    law_fixed_reads_back(second / 3600, 2);
    law_fixed_reads_back((second % 3600) / 60, 2);
    law_fixed_reads_back(second % 60, 2);
    reveal_strlit("-");
    assert(t =~= a + b + c + seq!['-'] + h + i + s);
    assert(t.take(4) =~= a);
    assert(t.subrange(4, 6) =~= b);
    assert(t.subrange(6, 8) =~= c);
    let clock = t.subrange(9, 15);
    assert(clock.take(2) =~= h);
    assert(clock.subrange(2, 4) =~= i);
    assert(clock.skip(4) =~= s);
}

/// What hexadecimal digits are worth: ten figures and six letters, large or small.
pub proof fn law_hex_digits(c: u8)
    ensures
        hex_value(c) is Some <==> (48 <= c <= 57 || 97 <= c <= 102 || 65 <= c <= 70),
        48 <= c <= 57 ==> hex_value(c)->0 == c - 48,
        97 <= c <= 102 ==> hex_value(c)->0 == c - 97 + 10,
        65 <= c <= 70 ==> hex_value(c)->0 == c - 65 + 10,
{
}

/// A host's name is made of small letters, figures and hyphens, and not longer than 63; it may be
/// empty.
pub proof fn law_host_names(s: Seq<u8>)
    ensures
        valid_host(s) <==> s.len() <= 63 && forall|i: int|
            0 <= i < s.len() ==> (97 <= #[trigger] s[i] <= 122 || 48 <= s[i] <= 57 || s[i] == 45),
{
    if valid_host(s) {
        assert forall|i: int| 0 <= i < s.len() implies (97 <= #[trigger] s[i] <= 122 || 48 <= s[i]
            <= 57 || s[i] == 45) by {
            assert(host_byte(s[i]));
        }
    }
}

// ---- paths ------------------------------------------------------------------

/// Whether a stretch of some bytes is one of the parts between slashes.
pub open spec fn part(s: Seq<u8>, i: int, j: int) -> bool {
    &&& 0 <= i <= j <= s.len()
    &&& i == 0 || s[i - 1] == 47
    &&& j == s.len() || s[j] == 47
    &&& forall|k: int| i <= k < j ==> s[k] != 47
}

proof fn lemma_slash(s: Seq<u8>)
    ensures
        -1 <= last_slash(s) < s.len(),
        last_slash(s) >= 0 ==> s[last_slash(s)] == 47,
        forall|i: int| last_slash(s) < i < s.len() ==> s[i] != 47,
    decreases s.len(),
{
    if s.len() > 0 && s.last() != 47 {
        let t = s.drop_last();
        lemma_slash(t);
        assert forall|i: int| last_slash(s) < i < s.len() implies s[i] != 47 by {
            if i < t.len() {
                assert(t[i] != 47);
            }
        }
    }
}

proof fn lemma_parts(s: Seq<u8>, i: int, j: int)
    ensures
        part(s, i, j) ==> split(s).contains(s.subrange(i, j)),
        forall|c: Seq<u8>| #[trigger]
            split(s).contains(c) ==> exists|a: int, b: int| #[trigger]
                part(s, a, b) && c == s.subrange(a, b),
        split(s).len() > 0,
        part(s, 0, j) ==> split(s)[0] == s.subrange(0, j),
    decreases s.len(),
{
    lemma_slash(s);
    crate::path::lemma_split_last(s);
    let k = last_slash(s);
    if k < 0 {
        assert(split(s)[0] == s);
        if part(s, i, j) {
            assert(i == 0);
            assert(j == s.len());
            assert(s.subrange(i, j) =~= s);
        }
        if part(s, 0, j) {
            assert(j == s.len());
            assert(s.subrange(0, j) =~= s);
        }
        assert forall|c: Seq<u8>| #[trigger] split(s).contains(c) implies exists|a: int, b: int|
            #[trigger] part(s, a, b) && c == s.subrange(a, b) by {
            assert(part(s, 0, s.len() as int));
            assert(s.subrange(0, s.len() as int) =~= s);
        }
    } else {
        let p = s.take(k);
        let name = s.skip(k + 1);
        lemma_parts(p, i, j);
        let l = split(p);
        let m = split(s);
        assert(m == l.push(name));
        assert(m[m.len() - 1] == name);
        assert(part(s, k + 1, s.len() as int));
        assert(s.subrange(k + 1, s.len() as int) =~= name);
        if part(s, i, j) {
            if j > k {
                assert(i > k) by {
                    if i <= k {
                        assert(s[k] != 47);
                    }
                }
                assert(i == k + 1) by {
                    if i > k + 1 {
                        assert(s[i - 1] == 47);
                    }
                }
                assert(j == s.len()) by {
                    if j < s.len() {
                        assert(s[j] == 47);
                    }
                }
            } else {
                assert(part(p, i, j)) by {
                    assert forall|x: int| i <= x < j implies p[x] != 47 by {
                        assert(s[x] != 47);
                    }
                }
                assert(p.subrange(i, j) =~= s.subrange(i, j));
                let x = choose|x: int| 0 <= x < l.len() && l[x] == p.subrange(i, j);
                assert(m[x] == s.subrange(i, j));
            }
        }
        if part(s, 0, j) {
            assert(j <= k) by {
                if j > k {
                    assert(s[k] != 47);
                }
            }
            assert(part(p, 0, j)) by {
                assert forall|x: int| 0 <= x < j implies p[x] != 47 by {
                    assert(s[x] != 47);
                }
            }
            lemma_parts(p, 0, j);
            assert(p.subrange(0, j) =~= s.subrange(0, j));
            assert(m[0] == l[0]);
        }
        assert forall|c: Seq<u8>| #[trigger] m.contains(c) implies exists|a: int, b: int|
            #[trigger] part(s, a, b) && c == s.subrange(a, b) by {
            let x = choose|x: int| 0 <= x < m.len() && m[x] == c;
            if x < l.len() {
                assert(l[x] == c);
                assert(l.contains(c));
                let (a, b) = choose|a: int, b: int| #[trigger]
                    part(p, a, b) && c == p.subrange(a, b);
                assert(part(s, a, b)) by {
                    assert forall|y: int| a <= y < b implies s[y] != 47 by {
                        assert(p[y] != 47);
                    }
                    if a > 0 {
                        assert(p[a - 1] == s[a - 1]);
                    }
                    if b < k {
                        assert(p[b] == s[b]);
                    }
                }
                assert(s.subrange(a, b) =~= c);
            }
        }
    }
}

/// Whether some bytes can be a part of a path.
pub open spec fn proper(c: Seq<u8>) -> bool {
    &&& 0 < c.len() <= 255
    &&& c != seq![46u8]
    &&& c != seq![46u8, 46u8]
}

/// What a path is: something, without a zero byte, whose parts between slashes are each something
/// of at most 255 bytes other than one or two dots, and whose first part is not the directory that
/// the engine keeps for itself.
pub proof fn law_paths(s: Seq<u8>)
    ensures
        valid_path(s) <==> {
            &&& s.len() > 0
            &&& forall|i: int| 0 <= i < s.len() ==> s[i] != 0
            &&& forall|i: int, j: int| #[trigger] part(s, i, j) ==> proper(s.subrange(i, j))
            &&& forall|j: int| #[trigger]
                part(s, 0, j) ==> s.subrange(0, j) != seq![
                    46u8,
                    100u8,
                    101u8,
                    108u8,
                    111u8,
                    99u8,
                    97u8,
                    108u8,
                ]
        },
{
    let cs = split(s);
    crate::path::lemma_components_fault(cs);
    if valid_path(s) {
        assert forall|i: int| 0 <= i < s.len() implies s[i] != 0 by {
            assert(s.contains(s[i]));
        }
        assert forall|i: int, j: int| #[trigger] part(s, i, j) implies proper(s.subrange(i, j)) by {
            lemma_parts(s, i, j);
            let x = choose|x: int| 0 <= x < cs.len() && cs[x] == s.subrange(i, j);
            assert(component_fault(cs[x]) is None);
        }
        assert forall|j: int| #[trigger] part(s, 0, j) implies s.subrange(0, j) != reserved() by {
            lemma_parts(s, 0, j);
        }
    }
    if s.len() > 0 && (forall|i: int| 0 <= i < s.len() ==> s[i] != 0) && (forall|i: int, j: int|
        #[trigger]
        part(s, i, j) ==> proper(s.subrange(i, j))) && (forall|j: int| #[trigger]
        part(s, 0, j) ==> s.subrange(0, j) != reserved()) {
        assert(!s.contains(0u8));
        lemma_parts(s, 0, 0);
        if s[0] == 47 {
            assert(part(s, 0, 0));
            assert(s.subrange(0, 0).len() == 0);
        }
        if s.last() == 47 {
            let n = s.len() as int;
            assert(part(s, n, n));
            assert(s.subrange(n, n).len() == 0);
        }
        assert forall|x: int| 0 <= x < cs.len() implies component_fault(#[trigger] cs[x]) is None by {
            assert(cs.contains(cs[x]));
            let (a, b) = choose|a: int, b: int| #[trigger] part(s, a, b) && cs[x] == s.subrange(a, b);
            assert(proper(s.subrange(a, b)));
        }
        let n = first_stop(s, 0);
        lemma_first_stop(s, 0);
        assert(part(s, 0, n));
        lemma_parts(s, 0, n);
    }
}

/// Where the first part of some bytes ends.
spec fn first_stop(s: Seq<u8>, i: int) -> int
    decreases s.len() - i,
{
    if i < 0 || i >= s.len() || s[i] == 47 {
        i
    } else {
        first_stop(s, i + 1)
    }
}

proof fn lemma_first_stop(s: Seq<u8>, i: int)
    requires
        0 <= i <= s.len(),
    ensures
        i <= first_stop(s, i) <= s.len(),
        first_stop(s, i) == s.len() || s[first_stop(s, i)] == 47,
        forall|k: int| i <= k < first_stop(s, i) ==> s[k] != 47,
    decreases s.len() - i,
{
    if i < s.len() && s[i] != 47 {
        lemma_first_stop(s, i + 1);
    }
}

/// A path's last part is its name, and what comes before the slash in front of it is where it
/// stands; a path without a slash stands at the top.
pub proof fn law_names(s: Seq<u8>)
    ensures
        forall|i: int| 0 <= i < name_of(s).len() ==> name_of(s)[i] != 47,
        parent_of(s) is None <==> !s.contains(47u8),
        parent_of(s) is None ==> name_of(s) == s,
        parent_of(s) is Some ==> s == parent_of(s)->0 + seq![47u8] + name_of(s),
{
    lemma_slash(s);
    let k = last_slash(s);
    if k < 0 {
        assert(name_of(s) =~= s);
        assert(!s.contains(47u8));
    } else {
        assert(s.contains(s[k]));
        assert(s =~= s.take(k) + seq![47u8] + s.skip(k + 1));
    }
}

// ---- reasons ----------------------------------------------------------------

/// Whether a number is how many percent one is of another, rounded down.
pub open spec fn percent(p: nat, of: int, all: int) -> bool {
    p * all <= of * 100 < (p + 1) * all
}

/// The reason for holding a batch says how many deletions and modifications there are, how many
/// percent that is, rounded down, and of how many entries; or how many bytes.
pub proof fn law_reason_is_spelled(reason: HoldReason)
    ensures
        match reason {
            HoldReason::Count { destructive, tracked_before } => tracked_before > 0 && destructive
                * 100 <= u64::MAX ==> exists|p: nat| #[trigger]
                percent(p, destructive as int, tracked_before as int) && reason.text()
                    == "count: "@ + decimal_text(destructive as nat) + " deletes and modifies = "@
                    + decimal_text(p) + "% of "@ + decimal_text(tracked_before as nat)
                    + " tracked"@,
            HoldReason::Size { bytes } => reason.text() == "size: "@ + decimal_text(bytes as nat)
                + " bytes of adds and modifies"@,
        },
{
    match reason {
        HoldReason::Count { destructive, tracked_before } => {
            if tracked_before > 0 && destructive * 100 <= u64::MAX {
                let x = destructive * 100;
                let t = tracked_before as int;
                let p = (x / t) as nat;
                assert(p * t <= x < (p + 1) * t) by (nonlinear_arith)
                    requires
                        p == x / t,
                        t > 0,
                        x >= 0,
                ;
                assert(percent(p, destructive as int, t));
            }
        },
        HoldReason::Size { bytes } => {},
    }
}

} // verus!
