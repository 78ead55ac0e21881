use rayon::iter::{IndexedParallelIterator, IntoParallelIterator, ParallelIterator};
use vstd::prelude::*;

use crate::amount::{decimal_representable, ScaledAmount, SplitError};
use crate::model::{
    allocation, is_fair, lemma_allocation_conserves, lemma_allocation_fair,
    lemma_total_prefix_bounded, lemma_total_take_step, lemma_total_update, outcome_view,
    share_of, split_error, split_outcome, total,
};

verus! {

/// The share of recipient `index` when every recipient gets `base` units and
/// the first `remainder` recipients one unit more (unless `base` is already
/// the largest `i128`, where no unit can be added).
pub open spec fn unit_share(base: i128, remainder: i128, index: int, scale: u32) -> ScaledAmount {
    ScaledAmount {
        mantissa: if index < remainder && base < i128::MAX {
            (base + 1) as i128
        } else {
            base
        },
        scale,
    }
}

/// The share of one recipient, computed from its index alone.
pub fn share_at(base: i128, remainder: i128, index: usize, scale: u32) -> (r: ScaledAmount)
    ensures
        r == unit_share(base, remainder, index as int, scale),
{
    let extra: i128 = if (index as i128) < remainder && base < i128::MAX {
        1
    } else {
        0
    };
    ScaledAmount { mantissa: base + extra, scale }
}

/// Relies on rayon's `into_par_iter` on a range, its `map`, and
/// `IndexedParallelIterator::collect_into_vec`: the range `0..count` is mapped
/// in parallel through `share_at`, and the vector is cleared and then holds the
/// results in index order, one for each index.
#[verifier::external_body]
fn gather_shares(base: i128, remainder: i128, count: usize, scale: u32) -> (r: Vec<ScaledAmount>)
    ensures
        r@.len() == count,
        forall|i: int| 0 <= i < count ==> #[trigger] r@[i] == unit_share(base, remainder, i, scale),
{
    let mut shares: Vec<ScaledAmount> = Vec::new();
    (0..count).into_par_iter().map(|i| share_at(base, remainder, i, scale)).collect_into_vec(&mut shares);
    shares
}

/// The sum of the mantissas of shares that are not negative.
fn sum_units(shares: &Vec<ScaledAmount>) -> (r: i128)
    requires
        forall|k: int| 0 <= k < shares@.len() ==> 0 <= #[trigger] shares@[k].mantissa,
        total(shares@) <= i128::MAX,
    ensures
        r == total(shares@),
{
    let mut sum: i128 = 0;
    let mut i: usize = 0;
    proof {
        assert(shares@.take(0) =~= Seq::<ScaledAmount>::empty());
    }
    while i < shares.len()
        invariant
            i <= shares@.len(),
            sum == total(shares@.take(i as int)),
            forall|k: int| 0 <= k < shares@.len() ==> 0 <= #[trigger] shares@[k].mantissa,
            total(shares@) <= i128::MAX,
        decreases shares@.len() - i,
    {
        proof {
            lemma_total_take_step(shares@, i as int);
            lemma_total_prefix_bounded(shares@, i as int + 1);
        }
        sum = sum + shares[i].mantissa;
        i = i + 1;
    }
    proof {
        assert(shares@.take(i as int) =~= shares@);
    }
    sum
}

/// Adds to the first share, one minimal unit at a time, whatever the shares
/// fall short of `raw`, so that they sum to `raw` exactly.
pub fn reconcile(shares: &mut Vec<ScaledAmount>, raw: i128)
    requires
        old(shares)@.len() > 0,
        forall|k: int| 0 <= k < old(shares)@.len() ==> 0 <= #[trigger] old(shares)@[k].mantissa,
        total(old(shares)@) <= raw,
    ensures
        final(shares)@ == old(shares)@.update(
            0,
            ScaledAmount {
                mantissa: (old(shares)@[0].mantissa + (raw - total(old(shares)@))) as i128,
                scale: old(shares)@[0].scale,
            },
        ),
        total(final(shares)@) == raw,
{
    let ghost start = shares@;
    proof {
        lemma_total_prefix_bounded(start, start.len() as int);
        assert(start.take(start.len() as int) =~= start);
    }
    let mut total_split: i128 = sum_units(shares);
    let mut diff: i128 = raw - total_split;
    while diff > 0
        invariant
            shares@.len() == start.len(),
            start.len() > 0,
            forall|k: int| 0 <= k < shares@.len() ==> 0 <= #[trigger] shares@[k].mantissa,
            forall|k: int| 1 <= k < shares@.len() ==> #[trigger] shares@[k] == start[k],
            shares@[0].scale == start[0].scale,
            shares@[0].mantissa - start[0].mantissa == total(shares@) - total(start),
            0 <= total(shares@) <= raw,
            diff == raw - total(shares@),
        decreases diff,
    {
        let current: i128 = shares[0].mantissa;
        proof {
            assert(shares@.take(0) =~= Seq::<ScaledAmount>::empty());
            lemma_total_take_step(shares@, 0);
            lemma_total_prefix_bounded(shares@, 1);
        }
        let next = ScaledAmount { mantissa: current + 1, scale: shares[0].scale };
        proof {
            lemma_total_update(shares@, 0, next);
        }
        shares.set(0, next);
        total_split = sum_units(shares);
        diff = raw - total_split;
    }
    proof {
        assert(shares@ =~= start.update(
            0,
            ScaledAmount {
                mantissa: (start[0].mantissa + (raw - total(start))) as i128,
                scale: start[0].scale,
            },
        ));
    }
}

/// Splits `amount` among `recipients` in minimal units and gives each share
/// the scale `scale`.
///
/// The amount's mantissa is split as it stands: its own scale plays no part.
/// Every recipient gets the quotient of the mantissa by `recipients`, and the
/// first recipients one unit more each, until the remainder is used up.
pub fn split_decimal(amount: ScaledAmount, recipients: usize, scale: u32) -> (r: Result<
    Vec<ScaledAmount>,
    SplitError,
>)
    ensures
        outcome_view(r) == split_outcome(amount.mantissa as int, recipients as nat, scale),
        r is Ok <==> split_error(amount.mantissa as int, recipients as nat, scale) is None,
        match r {
            Ok(v) => {
                &&& v@.len() == recipients
                &&& total(v@) == amount.mantissa
                &&& is_fair(v@)
                &&& forall|i: int| 0 <= i < v@.len() ==> (#[trigger] v@[i]).scale == scale
                &&& forall|i: int|
                    0 <= i < v@.len() ==> (#[trigger] v@[i]).mantissa == share_of(
                        amount.mantissa as int,
                        recipients as int,
                        i,
                    )
            },
            Err(e) => split_error(amount.mantissa as int, recipients as nat, scale) == Some(e),
        },
{
    if recipients == 0 {
        return Err(SplitError::InvalidRecipientCount);
    }
    let raw: i128 = amount.mantissa;
    if raw < 0 {
        return Err(SplitError::NegativeAmountUnsupported);
    }
    let count: u128 = recipients as u128;
    let quotient: u128 = (raw as u128) / count;
    let rest: u128 = (raw as u128) % count;
    proof {
        assert(quotient <= raw) by (nonlinear_arith)
            requires
                quotient == (raw as u128) / count,
                count >= 1,
                raw >= 0,
        ;
        if rest > 0 {
            assert(count >= 2);
            assert(quotient * 2 <= raw) by (nonlinear_arith)
                requires
                    quotient == (raw as int) / (count as int),
                    count >= 2,
                    raw >= 0,
            ;
        }
    }
    let base: i128 = quotient as i128;
    let remainder: i128 = rest as i128;
    let largest: i128 = if remainder > 0 {
        base + 1
    } else {
        base
    };
    match decimal_representable(largest, scale) {
        Err(e) => {
            return Err(e);
        },
        Ok(()) => {},
    }
    let mut splits = gather_shares(base, remainder, recipients, scale);
    let ghost expected = allocation(raw as int, recipients as nat, scale);
    proof {
        assert forall|i: int| 0 <= i < recipients implies splits@[i] == #[trigger] expected[i] by {
            assert(splits@[i] == unit_share(base, remainder, i, scale));
        }
        assert(splits@ =~= expected);
        lemma_allocation_conserves(raw as int, recipients as nat, scale);
        lemma_allocation_fair(raw as int, recipients as nat, scale);
    }
    reconcile(&mut splits, raw);
    proof {
        assert(splits@ =~= expected);
    }
    Ok(splits)
}

} // verus!
