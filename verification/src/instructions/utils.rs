//! Attribute keys, timestamp reading and reward arithmetic shared by the
//! staking instructions.

use vstd::prelude::*;
use vstd::arithmetic::power::pow;

use crate::attribute::{
    attributes_view, fetched_view, plugin_write_view, lemma_without_keys_push, without_keys, Attribute, PluginWrite,
};
use crate::decimal::{decimal_string, parse_i64_decimal, parse_i64_text, parse_u64_decimal, parse_u64_text, u64_to_text};
use crate::error::ErrorCode;

verus! {

pub const SECONDS_PER_DAY: i64 = 86400;
pub const STAKED_ATTRIBUTE: &'static str = "staked";
pub const STAKED_AT_ATTRIBUTE: &'static str = "staked_at";
pub const LAST_CLAIMED_ATTRIBUTE: &'static str = "last_claimed";
pub const STAKED_COUNT_ATTRIBUTE: &'static str = "staked_count";

/// What reading an attribute's value as a timestamp gives: the `i64` it
/// denotes, or `InvalidTimestamp`.
pub open spec fn timestamp_of(value: Seq<char>) -> Result<i64, ErrorCode> {
    match parse_i64_decimal(value) {
        Some(t) => Ok(t),
        None => Err(ErrorCode::InvalidTimestamp),
    }
}

/// Reads the attribute's value as an `i64` timestamp.
pub fn parse_i64_attribute(attribute: &Attribute) -> (res: Result<i64, ErrorCode>)
    ensures
        res == timestamp_of(attribute.value@),
{
    match parse_i64_text(attribute.value.as_str()) {
        Ok(t) => Ok(t),
        Err(_) => Err(ErrorCode::InvalidTimestamp),
    }
}

/// The later of the two timestamps.
pub open spec fn later_of(staked_timestamp: int, claimed_timestamp: int) -> int {
    if claimed_timestamp > staked_timestamp {
        claimed_timestamp
    } else {
        staked_timestamp
    }
}

/// Rewards accrue from the last claim, or from staking if the asset was not
/// claimed on since: the later of the two timestamps.
pub fn reward_start_timestamp(staked_timestamp: i64, claimed_timestamp: i64) -> (res: i64)
    ensures
        res == later_of(staked_timestamp as int, claimed_timestamp as int),
{
    if claimed_timestamp > staked_timestamp {
        claimed_timestamp
    } else {
        staked_timestamp
    }
}

/// `a / b` rounded toward zero, as integer division in Rust rounds.
pub open spec fn div_toward_zero(a: int, b: int) -> int {
    if a >= 0 {
        a / b
    } else {
        -((-a) / b)
    }
}

/// The whole days from `start` to `current`, rounded toward zero; `Err` where
/// the difference of the two timestamps does not fit in an `i64`.
pub open spec fn days_between(current: int, start: int) -> Result<i64, ErrorCode> {
    let diff = current - start;
    if i64::MIN <= diff && diff <= i64::MAX {
        Ok(div_toward_zero(diff, SECONDS_PER_DAY as int) as i64)
    } else {
        Err(ErrorCode::InvalidTimestamp)
    }
}

/// The number of whole days from `start_timestamp` to `current_timestamp`.
pub fn reward_days(current_timestamp: i64, start_timestamp: i64) -> (res: Result<i64, ErrorCode>)
    ensures
        res == days_between(current_timestamp as int, start_timestamp as int),
{
    match current_timestamp.checked_sub(start_timestamp) {
        None => Err(ErrorCode::InvalidTimestamp),
        Some(diff) => match diff.checked_div(SECONDS_PER_DAY) {
            None => Err(ErrorCode::InvalidTimestamp),
            Some(days) => Ok(days),
        },
    }
}

/// `days` as the `as u64` cast reads it: unchanged when it is not negative,
/// wrapped around by 2^64 when it is.
pub open spec fn days_as_u64(days: i64) -> int {
    if days >= 0 {
        days as int
    } else {
        days as int + 0x1_0000_0000_0000_0000
    }
}

/// The reward for `days` days at `rewards_bps` basis points per day, in the
/// smallest units of a mint with `decimals` decimals:
/// `days * rewards_bps * 10^decimals / 10000`, rounded down, where the days
/// are read as an unsigned number; `InvalidRewardsBps` where the product
/// before the division exceeds `u64::MAX`.
pub open spec fn reward_for(days: i64, rewards_bps: u16, decimals: u8) -> Result<u64, ErrorCode> {
    let scaled = days_as_u64(days) * rewards_bps;
    if scaled > u64::MAX {
        Err(ErrorCode::InvalidRewardsBps)
    } else if scaled * pow(10, decimals as nat) > u64::MAX {
        Err(ErrorCode::InvalidRewardsBps)
    } else {
        Ok((scaled * pow(10, decimals as nat) / 10000) as u64)
    }
}

/// Whether computing the reward stops on the overflow of `10^decimals`: the
/// power is taken once the days times the basis points are found to fit in a
/// `u64`, and it fits in a `u64` itself only up to 19 decimals.
pub open spec fn reward_power_overflows(days: i64, rewards_bps: u16, decimals: u8) -> bool {
    days_as_u64(days) * rewards_bps <= u64::MAX && decimals > 19
}

/// `10^e` grows with `e`, and `10^19` fits in a `u64`.
proof fn lemma_pow10_fits(e: nat)
    requires
        e <= 19,
    ensures
        1 <= pow(10, e) <= pow(10, 19),
        pow(10, 19) == 10_000_000_000_000_000_000,
    decreases 19 - e,
{
    reveal_with_fuel(pow, 20);
    if e < 19 {
        lemma_pow10_fits(e + 1);
        assert(pow(10, e + 1) == 10 * pow(10, e));
    }
}

/// Calls `u64::pow`. Trusted: its documentation says that it raises `base` to
/// the power `exp`; `requires` leaves out the overflow on which it panics
/// where overflow checks are on.
#[verifier::external_body]
fn u64_pow(base: u64, exp: u32) -> (res: u64)
    requires
        pow(base as int, exp as nat) <= u64::MAX,
    ensures
        res == pow(base as int, exp as nat),
{
    base.pow(exp)
}

/// Whether `reward_amount` would stop on the overflow of `10^decimals` for
/// these arguments; a caller tests this before calling it.
pub fn reward_power_overflow(days: i64, rewards_bps: u16, decimals: u8) -> (res: bool)
    ensures
        res == reward_power_overflows(days, rewards_bps, decimals),
{
    proof {
        lemma_days_as_u64(days);
    }
    match (days as u64).checked_mul(rewards_bps as u64) {
        None => false,
        Some(_) => decimals > 19,
    }
}

/// The `as u64` cast of a day count is `days_as_u64`.
proof fn lemma_days_as_u64(days: i64)
    ensures
        (days as u64) as int == days_as_u64(days),
{
    assert(days < 0 ==> (days as u64) as int == days as int + 0x1_0000_0000_0000_0000)
        by (bit_vector);
    assert(days >= 0 ==> (days as u64) as int == days as int) by (bit_vector);
}

/// The reward for `days` days at `rewards_bps` basis points per day, in the
/// smallest units of a mint with `decimals` decimals.
pub fn reward_amount(days: i64, rewards_bps: u16, decimals: u8) -> (res: Result<u64, ErrorCode>)
    requires
        !reward_power_overflows(days, rewards_bps, decimals),
    ensures
        res == reward_for(days, rewards_bps, decimals),
{
    proof {
        lemma_days_as_u64(days);
    }
    let scaled = match (days as u64).checked_mul(rewards_bps as u64) {
        None => {
            return Err(ErrorCode::InvalidRewardsBps);
        },
        Some(scaled) => scaled,
    };
    proof {
        lemma_pow10_fits(decimals as nat);
    }
    let power = u64_pow(10, decimals as u32);
    match scaled.checked_mul(power) {
        None => Err(ErrorCode::InvalidRewardsBps),
        Some(total) => match total.checked_div(10000) {
            None => Err(ErrorCode::InvalidRewardsBps),
            Some(amount) => Ok(amount),
        },
    }
}

/// The count of staked assets that a collection's attribute list records: the
/// value of its last `staked_count` entry, `None` where it has none;
/// `InvalidStakedCount` from the first such entry whose value is not a `u64`.
pub open spec fn recorded_count(s: Seq<(Seq<char>, Seq<char>)>) -> Result<Option<u64>, ErrorCode>
    decreases s.len(),
{
    if s.len() == 0 {
        Ok(None)
    } else {
        match recorded_count(s.drop_last()) {
            Err(e) => Err(e),
            Ok(count) => if s.last().0 == STAKED_COUNT_ATTRIBUTE@ {
                match parse_u64_decimal(s.last().1) {
                    Some(n) => Ok(Some(n)),
                    None => Err(ErrorCode::InvalidStakedCount),
                }
            } else {
                Ok(count)
            },
        }
    }
}

/// `count` moved by `delta`; `InvalidStakedCount` where that leaves the range
/// of a `u64`.
pub open spec fn count_after(count: u64, delta: i64) -> Result<u64, ErrorCode> {
    let n = count + delta;
    if 0 <= n && n <= u64::MAX {
        Ok(n as u64)
    } else {
        Err(ErrorCode::InvalidStakedCount)
    }
}

/// The set that holds just the collection's count key.
pub open spec fn count_key() -> Set<Seq<char>> {
    set![STAKED_COUNT_ATTRIBUTE@]
}

/// What moving a collection's staked count by `delta` writes: its other
/// attributes in their order, then `staked_count` set to the new count (a
/// missing count counts as 0); the plugin is added where it was absent or held
/// no count, and updated otherwise.
pub open spec fn staked_count_write(
    s: Seq<(Seq<char>, Seq<char>)>,
    plugin_present: bool,
    delta: i64,
) -> Result<(Seq<(Seq<char>, Seq<char>)>, bool), ErrorCode> {
    match recorded_count(s) {
        Err(e) => Err(e),
        Ok(found) => {
            let count: u64 = match found {
                Some(c) => c,
                None => 0,
            };
            match count_after(count, delta) {
                Err(e) => Err(e),
                Ok(n) => Ok(
                    (
                        without_keys(s, count_key()).push(
                            (STAKED_COUNT_ATTRIBUTE@, decimal_string(n as int)),
                        ),
                        !plugin_present || found is None,
                    ),
                ),
            }
        },
    }
}

/// Once reading the count fails on a prefix, it fails the same way on the
/// whole list.
proof fn lemma_recorded_count_err(s: Seq<(Seq<char>, Seq<char>)>, n: int)
    requires
        0 <= n <= s.len(),
        recorded_count(s.take(n)) is Err,
    ensures
        recorded_count(s) == recorded_count(s.take(n)),
    decreases s.len() - n,
{
    if n == s.len() {
        assert(s.take(n) =~= s);
    } else {
        assert(s.take(n + 1).drop_last() =~= s.take(n));
        lemma_recorded_count_err(s, n + 1);
    }
}

/// Moves the collection's count of staked assets by `delta` (`+1` on a stake,
/// `-1` on an unstake), given the collection's attribute list as fetched
/// (`None` where it has no `Attributes` plugin), and gives the attribute list
/// to write back.
pub fn update_collection_staked_count(fetched: &Option<Vec<Attribute>>, delta: i64) -> (res: Result<
    PluginWrite,
    ErrorCode,
>)
    ensures
        plugin_write_view(res) == staked_count_write(fetched_view(*fetched), fetched is Some, delta),
{
    let count_key_text = STAKED_COUNT_ATTRIBUTE.to_owned();
    let mut attributes_list: Vec<Attribute> = Vec::new();
    let mut current_count: u64 = 0;
    let mut found_count = false;
    let ghost s = fetched_view(*fetched);

    if let Some(attributes) = fetched {
        let mut i: usize = 0;
        while i < attributes.len()
            invariant
                i <= attributes.len(),
                s == attributes_view(attributes@),
                s == fetched_view(*fetched),
                count_key_text@ == STAKED_COUNT_ATTRIBUTE@,
                attributes_view(attributes_list@) == without_keys(s.take(i as int), count_key()),
                recorded_count(s.take(i as int)) == Ok::<Option<u64>, ErrorCode>(
                    if found_count {
                        Some(current_count)
                    } else {
                        None
                    },
                ),
                !found_count ==> current_count == 0,
            decreases attributes.len() - i,
        {
            let attribute = &attributes[i];
            proof {
                assert(s.take(i + 1).drop_last() =~= s.take(i as int));
                assert(s.take(i + 1).last() == attribute@);
                lemma_without_keys_push(s.take(i as int), attribute@, count_key());
                assert(s.take(i + 1) =~= s.take(i as int).push(attribute@));
            }
            if attribute.key == count_key_text {
                match parse_u64_text(attribute.value.as_str()) {
                    Ok(n) => {
                        current_count = n;
                        found_count = true;
                    },
                    Err(_) => {
                        proof {
                            assert(recorded_count(s.take(i + 1)) == Err::<Option<u64>, ErrorCode>(
                                ErrorCode::InvalidStakedCount,
                            ));
                            lemma_recorded_count_err(s, i + 1);
                        }
                        return Err(ErrorCode::InvalidStakedCount);
                    },
                }
            } else {
                let ghost before = attributes_list@;
                attributes_list.push(attribute.clone());
                proof {
                    assert(attributes_view(attributes_list@) =~= attributes_view(before).push(
                        attribute@,
                    ));
                }
            }
            i += 1;
        }
        proof {
            assert(s.take(attributes.len() as int) =~= s);
        }
    } else {
        proof {
            assert(attributes_view(attributes_list@) =~= Seq::<(Seq<char>, Seq<char>)>::empty());
            assert(without_keys(s, count_key()) =~= s);
        }
    }

    let next_count = match current_count.checked_add_signed(delta) {
        Some(n) => n,
        None => {
            return Err(ErrorCode::InvalidStakedCount);
        },
    };

    let ghost before = attributes_list@;
    attributes_list.push(Attribute::new(STAKED_COUNT_ATTRIBUTE, u64_to_text(next_count)));
    proof {
        assert(attributes_view(attributes_list@) =~= attributes_view(before).push(
            (STAKED_COUNT_ATTRIBUTE@, decimal_string(next_count as int)),
        ));
    }
    let add_plugin = fetched.is_none() || !found_count;
    Ok(PluginWrite { attribute_list: attributes_list, add_plugin })
}

} // verus!
