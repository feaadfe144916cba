use vstd::prelude::*;

verus! {

/// Why a statistic could not be computed.
#[derive(Debug, Clone, Copy, PartialEq, Eq, Structural)]
pub enum StatsError {
    /// The store holds no unspent output.
    NoData,
    /// The store holds more output slots than a `u64` counter can count.
    TooManyOutputs,
    /// An address's growth does not fit in an `i64`.
    GrowthOverflow,
}

} // verus!
