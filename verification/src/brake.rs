//! The brake: one function, two callers.
//!
//! A batch is held if either rule trips: the count rule, when its deletions and modifications are
//! at least `hold_count` and at least `hold_pct` percent of the tracked entries before it; or the
//! size rule, when it writes more than `hold_size` bytes. The receiver asks of what an incoming
//! batch would change, the sender of its own unannounced changes.

use crate::batch::{ApplyItem, ApplyMode, ApplySet, ItemView, Summary};
use crate::entry::Kind;
use crate::index::{Index, IndexView};
use crate::ordmap::Value;
use crate::rules::Rules;
use crate::text::{decimal_text, push_decimal};
use vstd::prelude::*;
use vstd::string::*;

verus! {

/// The `u64` nearest to a number.
pub open spec fn clamp_u64(x: nat) -> u64 {
    if x > u64::MAX {
        u64::MAX
    } else {
        x as u64
    }
}

/// Which rule held a batch.
#[derive(Clone, Copy, Debug, PartialEq, Eq, Hash, Structural)]
pub enum HoldReason {
    /// Deletions and modifications against the tracked entries before the batch.
    Count { destructive: u64, tracked_before: usize },
    /// Bytes of adds and modifications.
    Size { bytes: u64 },
}

impl HoldReason {
    /// What the reason says. The percentage is of the product held at the end of its range.
    pub open spec fn text(self) -> Seq<char> {
        match self {
            HoldReason::Count { destructive, tracked_before } => "count: "@ + decimal_text(
                destructive as nat,
            ) + " deletes and modifies = "@ + decimal_text(
                if tracked_before == 0 {
                    100
                } else {
                    clamp_u64((destructive * 100) as nat) as nat / tracked_before as nat
                },
            ) + "% of "@ + decimal_text(tracked_before as nat) + " tracked"@,
            HoldReason::Size { bytes } => "size: "@ + decimal_text(bytes as nat)
                + " bytes of adds and modifies"@,
        }
    }

    /// The reason as a sentence.
    pub fn to_string(&self) -> (r: String)
        ensures
            r@ == self.text(),
    {
        let mut out = String::new();
        match self {
            HoldReason::Count { destructive, tracked_before } => {
                let pct: u64 = if *tracked_before == 0 {
                    100
                } else {
                    times(*destructive, 100) / (*tracked_before as u64)
                };
                out.append("count: ");
                push_decimal(&mut out, *destructive);
                out.append(" deletes and modifies = ");
                push_decimal(&mut out, pct);
                out.append("% of ");
                push_decimal(&mut out, *tracked_before as u64);
                out.append(" tracked");
            },
            HoldReason::Size { bytes } => {
                out.append("size: ");
                push_decimal(&mut out, *bytes);
                out.append(" bytes of adds and modifies");
            },
        }
        assert(out@ =~= self.text());
        out
    }
}

impl DeepView for HoldReason {
    type V = HoldReason;

    open spec fn deep_view(&self) -> HoldReason {
        *self
    }
}

impl Value for HoldReason {
    fn dup(&self) -> (r: HoldReason) {
        *self
    }

    fn same(&self, other: &HoldReason) -> (r: bool) {
        *self == *other
    }
}

/// The product, held at the end of the range.
fn times(a: u64, b: u64) -> (r: u64)
    ensures
        r == clamp_u64((a * b) as nat),
{
    assert(a as u128 * b as u128 <= u64::MAX as u128 * u64::MAX as u128) by (nonlinear_arith)
        requires
            a <= u64::MAX,
            b <= u64::MAX,
    ;
    assert(a * b >= 0) by (nonlinear_arith)
        requires
            a >= 0,
            b >= 0,
    ;
    let p: u128 = a as u128 * b as u128;
    if p > u64::MAX as u128 {
        u64::MAX
    } else {
        p as u64
    }
}

/// The brake's answer.
#[derive(Clone, Copy, Debug, PartialEq, Eq, Hash, Structural)]
pub enum Verdict {
    Pass,
    Hold(HoldReason),
}

impl Verdict {
    /// Whether the batch is held.
    pub fn is_hold(self) -> (r: bool)
        ensures
            r == (self is Hold),
    {
        matches!(self, Verdict::Hold(_))
    }
}

/// Whether the count rule trips. Products are held at the end of their range.
pub open spec fn count_trips(rules: Rules, summary: Summary, tracked_before: nat) -> bool {
    &&& rules.hold_count > 0
    &&& tracked_before > 0
    &&& summary.destroyed() >= rules.hold_count
    &&& clamp_u64((summary.destroyed() * 100) as nat) >= clamp_u64(
        (rules.hold_pct * tracked_before) as nat,
    )
}

/// The answer: the count rule first, then the size rule.
pub open spec fn verdict(rules: Rules, summary: Summary, tracked_before: usize) -> Verdict {
    if count_trips(rules, summary, tracked_before as nat) {
        Verdict::Hold(HoldReason::Count { destructive: summary.destroyed(), tracked_before })
    } else if summary.bytes > rules.hold_size {
        Verdict::Hold(HoldReason::Size { bytes: summary.bytes })
    } else {
        Verdict::Pass
    }
}

/// The count rule cannot trip on an empty folder, nor when it is switched off, and adds do not
/// count toward it.
pub proof fn law_count_rule(rules: Rules, summary: Summary, tracked_before: usize, adds: u64)
    ensures
        tracked_before == 0 ==> !(verdict(rules, summary, tracked_before) is Hold && verdict(
            rules,
            summary,
            tracked_before,
        )->Hold_0 is Count),
        rules.hold_count == 0 ==> !(verdict(rules, summary, tracked_before) is Hold && verdict(
            rules,
            summary,
            tracked_before,
        )->Hold_0 is Count),
        verdict(rules, Summary { adds, ..summary }, tracked_before) == verdict(
            rules,
            summary,
            tracked_before,
        ),
{
}

/// Whatever is held stays held when more is destroyed and written.
pub proof fn law_brake_monotone(rules: Rules, a: Summary, b: Summary, tracked_before: usize)
    requires
        a.mods <= b.mods,
        a.dels <= b.dels,
        a.bytes <= b.bytes,
        verdict(rules, a, tracked_before) is Hold,
    ensures
        verdict(rules, b, tracked_before) is Hold,
{
}

/// Evaluates the count rule and the size rule. `tracked_before` is the number of tracked entries
/// before the batch.
pub fn evaluate(rules: &Rules, summary: &Summary, tracked_before: usize) -> (r: Verdict)
    ensures
        r == verdict(*rules, *summary, tracked_before),
{
    let destructive: u64 = summary.destructive();
    let h1 = rules.hold_count > 0 && tracked_before > 0 && destructive >= rules.hold_count && times(
        destructive,
        100,
    ) >= times(rules.hold_pct as u64, tracked_before as u64);
    if h1 {
        return Verdict::Hold(HoldReason::Count { destructive, tracked_before });
    }
    if summary.bytes > rules.hold_size {
        return Verdict::Hold(HoldReason::Size { bytes: summary.bytes });
    }
    Verdict::Pass
}

/// The counts with one item more, classified against the local record: a change of metadata or of
/// the index alone counts as nothing, a tombstone over a live file or symlink is a deletion, a
/// live entry over nothing or a tombstone is an add, anything else is a modification. A
/// directory's tombstone is no deletion.
pub open spec fn weighed(s: IndexView, sum: Summary, item: ItemView) -> Summary {
    if item.mode == ApplyMode::MetadataOnly || item.mode == ApplyMode::IndexOnly {
        sum
    } else {
        match s.live(item.entry.path) {
            Some(local) => if item.entry.deleted {
                if local.entry.kind != Kind::Dir {
                    sum.plus_del()
                } else {
                    sum
                }
            } else {
                sum.plus_mod(item.entry.size)
            },
            None => if item.entry.deleted {
                sum
            } else {
                sum.plus_add(item.entry.size)
            },
        }
    }
}

/// The counts of some items.
pub open spec fn weight(s: IndexView, items: Seq<ItemView>) -> Summary
    decreases items.len(),
{
    if items.len() == 0 {
        Summary::zero()
    } else {
        weighed(s, weight(s, items.drop_last()), items.last())
    }
}

/// Counts an apply set, classified against the local records.
pub fn receiver_summary(index: &Index, set: &ApplySet) -> (r: Summary)
    ensures
        r == weight(index@, set@.items),
{
    items_summary(index, &set.items)
}

/// Counts some items, classified against the local records.
pub fn items_summary(index: &Index, list: &Vec<ApplyItem>) -> (r: Summary)
    ensures
        r == weight(index@, list.deep_view()),
{
    let ghost items = list.deep_view();
    let mut summary = Summary { adds: 0, mods: 0, dels: 0, bytes: 0 };
    let mut i: usize = 0;
    assert(items.take(0) =~= Seq::empty());
    while i < list.len()
        invariant
            i <= list.len(),
            items == list.deep_view(),
            summary == weight(index@, items.take(i as int)),
        decreases list.len() - i,
    {
        assert(items.take(i + 1).drop_last() =~= items.take(i as int));
        assert(items.take(i + 1).last() == list@[i as int]@);
        match &list[i] {
            ApplyItem::Apply { entry, mode, .. } => {
                if !matches!(mode, ApplyMode::MetadataOnly | ApplyMode::IndexOnly) {
                    match index.live(&entry.path) {
                        Some(local) => {
                            if entry.deleted {
                                if local.entry.kind != Kind::Dir {
                                    summary.delete_one();
                                }
                            } else {
                                summary.modify_one(entry.size);
                            }
                        },
                        None => {
                            if !entry.deleted {
                                summary.add_one(entry.size);
                            }
                        },
                    }
                }
            },
        }
        i = i + 1;
    }
    assert(items.take(i as int) =~= items);
    summary
}

} // verus!
