//! Unstaking an asset: its staking record must say that it is staked and that
//! the freeze period has passed; the record is removed from the asset's
//! attributes, and the timestamps that its rewards are counted from are handed
//! on.

use vstd::prelude::*;

use super::stake::staking_keys;
use super::utils::{
    days_between, later_of, parse_i64_attribute, reward_amount, reward_days, reward_for,
    reward_power_overflow, reward_power_overflows, reward_start_timestamp, timestamp_of,
    LAST_CLAIMED_ATTRIBUTE, STAKED_ATTRIBUTE, STAKED_AT_ATTRIBUTE,
};
use crate::attribute::{attributes_view, lemma_without_keys_push, without_keys, Attribute};
use crate::error::ErrorCode;

verus! {

/// What reading a staking record has gathered so far: the last `staked_at`
/// and `last_claimed` timestamps (0 until one is read) and whether a `staked`
/// and a `staked_at` entry were met.
pub struct RecordScan {
    pub staked_timestamp: i64,
    pub claimed_timestamp: i64,
    pub found_staked: bool,
    pub found_staked_at: bool,
}

/// Nothing read yet.
pub open spec fn scan_start() -> RecordScan {
    RecordScan {
        staked_timestamp: 0,
        claimed_timestamp: 0,
        found_staked: false,
        found_staked_at: false,
    }
}

/// Reads one attribute of the record at `current` time: a `staked` entry must
/// say `true`; a `staked_at` entry must hold a timestamp at least
/// `freeze_period` whole days before `current`; a `last_claimed` entry must hold
/// a timestamp; any other attribute is passed over.
pub open spec fn scan_step(
    st: RecordScan,
    a: (Seq<char>, Seq<char>),
    current: i64,
    freeze_period: u32,
) -> Result<RecordScan, ErrorCode> {
    if a.0 == STAKED_ATTRIBUTE@ {
        if a.1 == "true"@ {
            Ok(RecordScan { found_staked: true, ..st })
        } else {
            Err(ErrorCode::AssetNotStaked)
        }
    } else if a.0 == STAKED_AT_ATTRIBUTE@ {
        match timestamp_of(a.1) {
            Err(e) => Err(e),
            Ok(t) => match days_between(current as int, t as int) {
                Err(e) => Err(e),
                Ok(days) => if days >= freeze_period {
                    Ok(RecordScan { staked_timestamp: t, found_staked_at: true, ..st })
                } else {
                    Err(ErrorCode::FreezePeriodNotElapsed)
                },
            },
        }
    } else if a.0 == LAST_CLAIMED_ATTRIBUTE@ {
        match timestamp_of(a.1) {
            Err(e) => Err(e),
            Ok(t) => Ok(RecordScan { claimed_timestamp: t, ..st }),
        }
    } else {
        Ok(st)
    }
}

/// Reads the attributes of `s` in order; the first one that fails decides the
/// error.
pub open spec fn record_scan(
    s: Seq<(Seq<char>, Seq<char>)>,
    current: i64,
    freeze_period: u32,
) -> Result<RecordScan, ErrorCode>
    decreases s.len(),
{
    if s.len() == 0 {
        Ok(scan_start())
    } else {
        match record_scan(s.drop_last(), current, freeze_period) {
            Err(e) => Err(e),
            Ok(st) => scan_step(st, s.last(), current, freeze_period),
        }
    }
}

/// What unstaking an asset with the attributes `s` at `current` time gives:
/// the error of the first attribute that fails, `AssetNotStaked` where no
/// `staked` or no `staked_at` entry is present, and otherwise the asset's
/// other attributes in their order, with the staking record removed, and the
/// last `staked_at` and `last_claimed` timestamps read.
pub open spec fn unstake_outcome(
    s: Seq<(Seq<char>, Seq<char>)>,
    current: i64,
    freeze_period: u32,
) -> Result<(Seq<(Seq<char>, Seq<char>)>, i64, i64), ErrorCode> {
    match record_scan(s, current, freeze_period) {
        Err(e) => Err(e),
        Ok(st) => if st.found_staked && st.found_staked_at {
            Ok((without_keys(s, staking_keys()), st.staked_timestamp, st.claimed_timestamp))
        } else {
            Err(ErrorCode::AssetNotStaked)
        },
    }
}

/// The attribute list that unstaking writes back, and the timestamps from
/// which the asset's remaining rewards are counted.
#[derive(Debug)]
pub struct UnstakePlan {
    pub attribute_list: Vec<Attribute>,
    pub staked_timestamp: i64,
    pub claimed_timestamp: i64,
}

impl View for UnstakePlan {
    type V = (Seq<(Seq<char>, Seq<char>)>, i64, i64);

    open spec fn view(&self) -> (Seq<(Seq<char>, Seq<char>)>, i64, i64) {
        (attributes_view(self.attribute_list@), self.staked_timestamp, self.claimed_timestamp)
    }
}

/// An unstake plan, or the error, as texts and timestamps.
pub open spec fn unstake_plan_view(r: Result<UnstakePlan, ErrorCode>) -> Result<
    (Seq<(Seq<char>, Seq<char>)>, i64, i64),
    ErrorCode,
> {
    match r {
        Ok(p) => Ok(p@),
        Err(e) => Err(e),
    }
}

/// Once reading the record fails on a prefix, it fails the same way on the
/// whole list.
proof fn lemma_record_scan_err(
    s: Seq<(Seq<char>, Seq<char>)>,
    n: int,
    current: i64,
    freeze_period: u32,
)
    requires
        0 <= n <= s.len(),
        record_scan(s.take(n), current, freeze_period) is Err,
    ensures
        record_scan(s, current, freeze_period) == record_scan(s.take(n), current, freeze_period),
    decreases s.len() - n,
{
    if n == s.len() {
        assert(s.take(n) =~= s);
    } else {
        assert(s.take(n + 1).drop_last() =~= s.take(n));
        lemma_record_scan_err(s, n + 1, current, freeze_period);
    }
}

/// The attribute list of an asset to unstake, as fetched: an asset without an
/// `Attributes` plugin was never staked (`AssetNotStaked`).
pub fn staked_attributes(fetched: Option<Vec<Attribute>>) -> (res: Result<Vec<Attribute>, ErrorCode>)
    ensures
        match fetched {
            Some(v) => res == Ok::<Vec<Attribute>, ErrorCode>(v),
            None => res == Err::<Vec<Attribute>, ErrorCode>(ErrorCode::AssetNotStaked),
        },
{
    match fetched {
        Some(attributes) => Ok(attributes),
        None => Err(ErrorCode::AssetNotStaked),
    }
}

/// Unstakes an asset whose `Attributes` plugin holds `attributes`, at
/// `current_timestamp`, where the freeze period is `freeze_period` days.
pub fn handler(attributes: &Vec<Attribute>, current_timestamp: i64, freeze_period: u32) -> (res:
    Result<UnstakePlan, ErrorCode>)
    ensures
        unstake_plan_view(res) == unstake_outcome(
            attributes_view(attributes@),
            current_timestamp,
            freeze_period,
        ),
{
    let staked_key = STAKED_ATTRIBUTE.to_owned();
    let staked_at_key = STAKED_AT_ATTRIBUTE.to_owned();
    let last_claimed_key = LAST_CLAIMED_ATTRIBUTE.to_owned();
    let is_staked = "true".to_owned();
    let ghost s = attributes_view(attributes@);

    let mut attributes_list: Vec<Attribute> = Vec::new();
    let mut staked_timestamp: i64 = 0;
    let mut claimed_timestamp: i64 = 0;
    let mut found_staked = false;
    let mut found_staked_at = false;

    let mut i: usize = 0;
    while i < attributes.len()
        invariant
            i <= attributes.len(),
            s == attributes_view(attributes@),
            staked_key@ == STAKED_ATTRIBUTE@,
            staked_at_key@ == STAKED_AT_ATTRIBUTE@,
            last_claimed_key@ == LAST_CLAIMED_ATTRIBUTE@,
            is_staked@ == "true"@,
            attributes_view(attributes_list@) == without_keys(s.take(i as int), staking_keys()),
            record_scan(s.take(i as int), current_timestamp, freeze_period) == Ok::<
                RecordScan,
                ErrorCode,
            >(
                RecordScan {
                    staked_timestamp,
                    claimed_timestamp,
                    found_staked,
                    found_staked_at,
                },
            ),
        decreases attributes.len() - i,
    {
        let attribute = &attributes[i];
        let ghost st = RecordScan {
            staked_timestamp,
            claimed_timestamp,
            found_staked,
            found_staked_at,
        };
        proof {
            assert(s.take(i + 1) =~= s.take(i as int).push(attribute@));
            assert(s.take(i + 1).drop_last() =~= s.take(i as int));
            lemma_without_keys_push(s.take(i as int), attribute@, staking_keys());
        }
        if attribute.key == staked_key {
            found_staked = true;
            if !(attribute.value == is_staked) {
                proof {
                    lemma_record_scan_err(s, i + 1, current_timestamp, freeze_period);
                }
                return Err(ErrorCode::AssetNotStaked);
            }
        } else if attribute.key == staked_at_key {
            found_staked_at = true;
            staked_timestamp = match parse_i64_attribute(attribute) {
                Ok(t) => t,
                Err(e) => {
                    proof {
                        lemma_record_scan_err(s, i + 1, current_timestamp, freeze_period);
                    }
                    return Err(e);
                },
            };
            let staked_days = match reward_days(current_timestamp, staked_timestamp) {
                Ok(days) => days,
                Err(e) => {
                    proof {
                        lemma_record_scan_err(s, i + 1, current_timestamp, freeze_period);
                    }
                    return Err(e);
                },
            };
            if !(staked_days >= freeze_period as i64) {
                proof {
                    lemma_record_scan_err(s, i + 1, current_timestamp, freeze_period);
                }
                return Err(ErrorCode::FreezePeriodNotElapsed);
            }
        } else if attribute.key == last_claimed_key {
            claimed_timestamp = match parse_i64_attribute(attribute) {
                Ok(t) => t,
                Err(e) => {
                    proof {
                        lemma_record_scan_err(s, i + 1, current_timestamp, freeze_period);
                    }
                    return Err(e);
                },
            };
        } else {
            let ghost before = attributes_list@;
            attributes_list.push(attribute.clone());
            proof {
                assert(attributes_view(attributes_list@) =~= attributes_view(before).push(
                    attribute@,
                ));
            }
        }
        i += 1;
    }
    proof {
        assert(s.take(attributes.len() as int) =~= s);
    }

    if !(found_staked && found_staked_at) {
        return Err(ErrorCode::AssetNotStaked);
    }

    Ok(UnstakePlan { attribute_list: attributes_list, staked_timestamp, claimed_timestamp })
}

/// What unstaking pays out to the owner.
#[derive(Debug, Clone, Copy, PartialEq, Eq, Structural)]
pub enum RewardOutcome {
    /// Mint this many units of the rewards mint (more than zero).
    Mint(u64),
    /// No reward is due, and nothing is minted.
    Nothing,
    /// The reward cannot be computed: the instruction fails with this error.
    Refused(ErrorCode),
    /// `10^decimals` overflows a `u64`: the computation stops on that overflow.
    PowerOverflow,
}

/// The reward that unstaking pays: the whole days from the later of the stake
/// and the last claim to `current`, at `rewards_bps` basis points per day in
/// units of a mint with `decimals` decimals; a zero reward mints nothing.
pub open spec fn unstake_reward_for(
    staked_timestamp: i64,
    claimed_timestamp: i64,
    current: i64,
    rewards_bps: u16,
    decimals: u8,
) -> RewardOutcome {
    match days_between(current as int, later_of(staked_timestamp as int, claimed_timestamp as int)) {
        Err(e) => RewardOutcome::Refused(e),
        Ok(days) => if reward_power_overflows(days, rewards_bps, decimals) {
            RewardOutcome::PowerOverflow
        } else {
            match reward_for(days, rewards_bps, decimals) {
                Err(e) => RewardOutcome::Refused(e),
                Ok(amount) => if amount > 0 {
                    RewardOutcome::Mint(amount)
                } else {
                    RewardOutcome::Nothing
                },
            }
        },
    }
}

/// The reward still owed when an asset is unstaked at `current_timestamp`,
/// counted from its last claim, or from its stake if it was never claimed on.
pub fn unstake_reward(
    plan: &UnstakePlan,
    current_timestamp: i64,
    rewards_bps: u16,
    decimals: u8,
) -> (res: RewardOutcome)
    ensures
        res == unstake_reward_for(
            plan.staked_timestamp,
            plan.claimed_timestamp,
            current_timestamp,
            rewards_bps,
            decimals,
        ),
{
    let reward_start = reward_start_timestamp(plan.staked_timestamp, plan.claimed_timestamp);
    let unclaimed_days = match reward_days(current_timestamp, reward_start) {
        Ok(days) => days,
        Err(e) => {
            return RewardOutcome::Refused(e);
        },
    };
    if reward_power_overflow(unclaimed_days, rewards_bps, decimals) {
        return RewardOutcome::PowerOverflow;
    }
    match reward_amount(unclaimed_days, rewards_bps, decimals) {
        Err(e) => RewardOutcome::Refused(e),
        Ok(amount) => if amount > 0 {
            RewardOutcome::Mint(amount)
        } else {
            RewardOutcome::Nothing
        },
    }
}

} // verus!
