//! Staking rules for Metaplex Core assets: which attributes an asset carries
//! while it is staked, when it may be unstaked, how its rewards accrue, and how
//! the collection keeps count of its staked assets.

pub mod decimal;
pub mod attribute;
pub mod error;
pub mod instructions;
pub mod laws;
