//! The errors that the staking instructions report.

use vstd::prelude::*;

verus! {

/// Why a staking instruction was refused.
#[derive(Debug, Clone, Copy, PartialEq, Eq, Structural)]
pub enum ErrorCode {
    /// The signer does not own the asset.
    InvalidOwner,
    /// The asset or collection is not under the expected update authority.
    InvalidUpdateAuthority,
    /// The asset is already staked.
    AlreadyStaked,
    /// The asset carries no staking record, or one that says it is not staked.
    AssetNotStaked,
    /// A staking timestamp cannot be read, or a time difference overflows.
    InvalidTimestamp,
    /// The asset has not been staked for the whole freeze period yet.
    FreezePeriodNotElapsed,
    /// The reward for the elapsed days overflows.
    InvalidRewardsBps,
    /// The collection's count of staked assets cannot be read or would overflow.
    InvalidStakedCount,
}

} // verus!
