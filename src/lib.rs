//! Loss-free division of a fixed-point amount into equal integer shares.

mod amount;
mod model;
mod split;

pub use amount::{decimal_to_int, ScaledAmount, SplitError, MAX_MANTISSA, MAX_SCALE};
pub use model::{
    allocation, is_fair, lemma_allocation_conserves, lemma_allocation_fair,
    lemma_split_deterministic, outcome_view, share_of, split_error, split_outcome, total,
};
pub use split::{reconcile, share_at, split_decimal, unit_share};
