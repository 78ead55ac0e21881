use vstd::arithmetic::div_mod::lemma_fundamental_div_mod;
use vstd::prelude::*;

use crate::amount::{decimal_limits, ScaledAmount, SplitError};

verus! {

/// The sum of the mantissas of a sequence of shares, in minimal units.
pub open spec fn total(shares: Seq<ScaledAmount>) -> int
    decreases shares.len(),
{
    if shares.len() == 0 {
        0
    } else {
        total(shares.drop_last()) + shares.last().mantissa
    }
}

/// Share `index` of `raw` minimal units split `count` ways: the quotient, plus one
/// unit for each of the first `raw % count` recipients.
pub open spec fn share_of(raw: int, count: int, index: int) -> int {
    raw / count + if index < raw % count {
        1int
    } else {
        0int
    }
}

/// The largest share of `raw` split `count` ways: the first one.
pub open spec fn largest_share(raw: int, count: int) -> int {
    share_of(raw, count, 0)
}

/// The shares of `raw` minimal units among `count` recipients, in recipient
/// order, each at `scale`.
pub open spec fn allocation(raw: int, count: nat, scale: u32) -> Seq<ScaledAmount> {
    Seq::new(count, |i: int| ScaledAmount { mantissa: share_of(raw, count as int, i) as i128, scale })
}

/// The error, if any, that splitting `raw` minimal units among `count`
/// recipients at `scale` meets; the checks are made in this order.
pub open spec fn split_error(raw: int, count: nat, scale: u32) -> Option<SplitError> {
    if count == 0 {
        Some(SplitError::InvalidRecipientCount)
    } else if raw < 0 {
        Some(SplitError::NegativeAmountUnsupported)
    } else {
        match decimal_limits(largest_share(raw, count as int), scale) {
            Err(e) => Some(e),
            Ok(_) => None,
        }
    }
}

/// What splitting `raw` minimal units among `count` recipients at `scale` yields.
pub open spec fn split_outcome(raw: int, count: nat, scale: u32) -> Result<Seq<ScaledAmount>, SplitError> {
    match split_error(raw, count, scale) {
        Some(e) => Err(e),
        None => Ok(allocation(raw, count, scale)),
    }
}

/// A result of an allocation, seen through the views of its shares.
pub open spec fn outcome_view(r: Result<Vec<ScaledAmount>, SplitError>) -> Result<Seq<ScaledAmount>, SplitError> {
    match r {
        Ok(v) => Ok(v@),
        Err(e) => Err(e),
    }
}

/// No two shares differ by more than one minimal unit, and no share is larger
/// than one before it.
pub open spec fn is_fair(shares: Seq<ScaledAmount>) -> bool {
    forall|i: int, j: int|
        0 <= i <= j < shares.len() ==> {
            &&& shares[j].mantissa <= #[trigger] shares[i].mantissa
            &&& shares[i].mantissa <= #[trigger] shares[j].mantissa + 1
        }
}

pub proof fn lemma_total_take_step(shares: Seq<ScaledAmount>, i: int)
    requires
        0 <= i < shares.len(),
    ensures
        total(shares.take(i + 1)) == total(shares.take(i)) + shares[i].mantissa,
{
    assert(shares.take(i + 1).drop_last() =~= shares.take(i));
}

/// Every prefix of a sequence of shares that are not negative sums to between
/// zero and the whole.
pub proof fn lemma_total_prefix_bounded(shares: Seq<ScaledAmount>, i: int)
    requires
        0 <= i <= shares.len(),
        forall|k: int| 0 <= k < shares.len() ==> 0 <= #[trigger] shares[k].mantissa,
    ensures
        0 <= total(shares.take(i)) <= total(shares),
    decreases shares.len() - i,
{
    lemma_total_prefix_bounded_below(shares, i);
    if i == shares.len() {
        assert(shares.take(i) =~= shares);
    } else {
        lemma_total_take_step(shares, i);
        lemma_total_prefix_bounded(shares, i + 1);
    }
}

proof fn lemma_total_prefix_bounded_below(shares: Seq<ScaledAmount>, i: int)
    requires
        0 <= i <= shares.len(),
        forall|k: int| 0 <= k < shares.len() ==> 0 <= #[trigger] shares[k].mantissa,
    ensures
        0 <= total(shares.take(i)),
    decreases i,
{
    if i > 0 {
        lemma_total_take_step(shares, i - 1);
        lemma_total_prefix_bounded_below(shares, i - 1);
    } else {
        assert(shares.take(0) =~= Seq::<ScaledAmount>::empty());
    }
}

/// Replacing one share changes the sum by the change in that share.
pub proof fn lemma_total_update(shares: Seq<ScaledAmount>, k: int, x: ScaledAmount)
    requires
        0 <= k < shares.len(),
    ensures
        total(shares.update(k, x)) == total(shares) - shares[k].mantissa + x.mantissa,
    decreases shares.len(),
{
    let updated = shares.update(k, x);
    if k == shares.len() - 1 {
        assert(updated.drop_last() =~= shares.drop_last());
    } else {
        assert(updated.drop_last() =~= shares.drop_last().update(k, x));
        lemma_total_update(shares.drop_last(), k, x);
    }
}

/// The first `i` shares of `raw` split `count` ways sum to `i` quotients plus
/// one unit for each of them that takes part of the remainder.
proof fn lemma_allocation_prefix_total(raw: int, count: nat, scale: u32, i: int)
    requires
        0 <= raw <= i128::MAX,
        count > 0,
        0 <= i <= count,
    ensures
        total(allocation(raw, count, scale).take(i)) == i * (raw / count as int) + if i < raw % count as int {
            i
        } else {
            raw % count as int
        },
    decreases i,
{
    let shares = allocation(raw, count, scale);
    let n = count as int;
    lemma_fundamental_div_mod(raw, n);
    assert(0 <= raw / n <= raw) by (nonlinear_arith)
        requires
            0 <= raw,
            n > 0,
            raw == n * (raw / n) + raw % n,
            0 <= raw % n < n,
    ;
    if i == 0 {
        assert(shares.take(0) =~= Seq::<ScaledAmount>::empty());
    } else {
        lemma_allocation_prefix_total(raw, count, scale, i - 1);
        lemma_total_take_step(shares, i - 1);
        assert(raw % n < n);
        if raw / n == raw {
            assert(raw % n == 0) by (nonlinear_arith)
                requires
                    raw == n * (raw / n) + raw % n,
                    raw / n == raw,
                    n > 0,
                    0 <= raw % n,
                    raw >= 0,
            ;
        }
        assert(i * (raw / n) == (i - 1) * (raw / n) + raw / n) by (nonlinear_arith);
    }
}

/// Conservation: the shares of a non-negative amount sum to the amount.
pub proof fn lemma_allocation_conserves(raw: int, count: nat, scale: u32)
    requires
        0 <= raw <= i128::MAX,
        count > 0,
    ensures
        total(allocation(raw, count, scale)) == raw,
{
    let shares = allocation(raw, count, scale);
    lemma_allocation_prefix_total(raw, count, scale, count as int);
    assert(shares.take(count as int) =~= shares);
    lemma_fundamental_div_mod(raw, count as int);
}

/// Fair distribution: the shares of a non-negative amount differ by at most one
/// minimal unit, and never grow from one recipient to the next.
pub proof fn lemma_allocation_fair(raw: int, count: nat, scale: u32)
    requires
        0 <= raw <= i128::MAX,
        count > 0,
    ensures
        is_fair(allocation(raw, count, scale)),
{
    let n = count as int;
    lemma_fundamental_div_mod(raw, n);
    assert(0 <= raw / n <= raw) by (nonlinear_arith)
        requires
            0 <= raw,
            n > 0,
            raw == n * (raw / n) + raw % n,
            0 <= raw % n < n,
    ;
    if raw / n == raw {
        assert(raw % n == 0) by (nonlinear_arith)
            requires
                raw == n * (raw / n) + raw % n,
                raw / n == raw,
                n > 0,
                0 <= raw % n,
                raw >= 0,
        ;
    }
}

/// Determinism: two results that each meet the contract of a split of the same
/// amount, among the same number of recipients, at the same scale, are equal
/// share for share.
pub proof fn lemma_split_deterministic(
    raw: int,
    count: nat,
    scale: u32,
    first: Result<Vec<ScaledAmount>, SplitError>,
    second: Result<Vec<ScaledAmount>, SplitError>,
)
    requires
        outcome_view(first) == split_outcome(raw, count, scale),
        outcome_view(second) == split_outcome(raw, count, scale),
    ensures
        outcome_view(first) == outcome_view(second),
        first is Ok <==> second is Ok,
{
}

} // verus!
