//! The staking instructions' decisions, apart from the accounts they read and
//! the programs they call.

pub mod stake;
pub mod unstake;
pub mod utils;
