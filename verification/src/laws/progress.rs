//! Laws of counting images.

use crate::progress::{after_reports, ProgressModel};
use crate::text::decimal;
use vstd::prelude::*;

verus! {

/// An image that has gone well counts as one that has, and as nothing else, and one that has gone
/// wrong likewise; the reports are numbered by both together.
pub proof fn law_reports_count_one(p: ProgressModel)
    requires
        p.completed + p.failed < u64::MAX,
    ensures
        p.counting(true).completed == p.completed + 1,
        p.counting(true).failed == p.failed,
        p.counting(true).total == p.total,
        p.counting(false).failed == p.failed + 1,
        p.counting(false).completed == p.completed,
        p.counting(false).total == p.total,
        p.number() == p.completed + p.failed,
        p.counting(true).number() == p.number() + 1,
        p.counting(false).number() == p.number() + 1,
{
}

/// Which images have gone well, and in what order the others come between, makes no difference to
/// the counts: only how many there are of each kind.
pub proof fn law_order_makes_no_difference(total: u64, outcomes: Seq<bool>, a: bool, b: bool)
    ensures
        after_reports(total, outcomes.push(a).push(b)) == after_reports(
            total,
            outcomes.push(b).push(a),
        ),
{
    reveal_with_fuel(after_reports, 3);
    assert(outcomes.push(a).push(b).drop_last() == outcomes.push(a));
    assert(outcomes.push(b).push(a).drop_last() == outcomes.push(b));
    assert(outcomes.push(a).drop_last() == outcomes);
    assert(outcomes.push(b).drop_last() == outcomes);
}

/// A report begins with a bracket, the number of the report, a slash, the number of images, a bracket
/// and a space.
pub proof fn law_reports_begin_with_their_number(p: ProgressModel)
    requires
        p.completed + p.failed <= u64::MAX,
    ensures
        p.position() == seq!['['] + decimal((p.completed + p.failed) as nat) + seq!['/'] + decimal(
            p.total as nat,
        ) + seq![']', ' '],
{
    reveal_strlit("[");
    reveal_strlit("/");
    reveal_strlit("] ");
    assert("["@ == seq!['[']);
    assert("/"@ == seq!['/']);
    assert("] "@ == seq![']', ' ']);
}

} // verus!
