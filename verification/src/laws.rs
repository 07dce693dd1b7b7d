//! What holds across the staking instructions: unstaking undoes staking, the
//! collection's count comes back after a stake and an unstake and stays the
//! number of its staked assets, an asset is staked at most once at a time,
//! rewards never pay a day twice; and what each rule computes, stated in terms
//! of its inputs: whole days, the reward formula, the start of the reward after
//! a claim, the freeze period counted from the stake, and the count entry.

use vstd::prelude::*;
use vstd::arithmetic::power::{lemma_pow_increases, lemma_pow_positive, pow};

use crate::attribute::{
    has_no_key_in, lemma_without_absent_keys, lemma_without_keys_concat,
    lemma_without_keys_has_none, lemma_without_keys_push, without_keys,
};
use crate::decimal::{
    decimal_string, lemma_parse_i64_of_decimal, lemma_parse_u64_of_decimal, parse_u64_decimal,
};
use crate::error::ErrorCode;
use crate::instructions::stake::{marked_staked, staking_keys, staking_record};
use crate::instructions::unstake::{
    record_scan, scan_start, unstake_outcome, unstake_reward_for, RecordScan, RewardOutcome,
};
use crate::instructions::utils::{
    count_after, count_key, days_between, div_toward_zero, later_of, recorded_count, reward_for,
    reward_power_overflows, staked_count_write, timestamp_of,
    LAST_CLAIMED_ATTRIBUTE, STAKED_ATTRIBUTE, STAKED_AT_ATTRIBUTE, STAKED_COUNT_ATTRIBUTE,
};

verus! {

/// The attribute keys differ from one another, and the texts of the staking
/// flag differ.
pub proof fn lemma_attribute_texts()
    ensures
        STAKED_ATTRIBUTE@ != STAKED_AT_ATTRIBUTE@,
        STAKED_ATTRIBUTE@ != LAST_CLAIMED_ATTRIBUTE@,
        STAKED_AT_ATTRIBUTE@ != LAST_CLAIMED_ATTRIBUTE@,
        STAKED_COUNT_ATTRIBUTE@ != STAKED_ATTRIBUTE@,
        "true"@ != "false"@,
{
    reveal_strlit("staked");
    reveal_strlit("staked_at");
    reveal_strlit("last_claimed");
    reveal_strlit("staked_count");
    reveal_strlit("true");
    reveal_strlit("false");
    assert(STAKED_ATTRIBUTE@.len() != STAKED_AT_ATTRIBUTE@.len());
    assert(STAKED_ATTRIBUTE@.len() != LAST_CLAIMED_ATTRIBUTE@.len());
    assert(STAKED_AT_ATTRIBUTE@.len() != LAST_CLAIMED_ATTRIBUTE@.len());
    assert(STAKED_COUNT_ATTRIBUTE@.len() != STAKED_ATTRIBUTE@.len());
    assert("true"@.len() != "false"@.len());
}

/// Removing the staking keys from a staking record leaves nothing.
proof fn lemma_record_entries_are_staking_keys(rec: Seq<(Seq<char>, Seq<char>)>)
    requires
        rec.len() == 3,
        rec[0].0 == STAKED_ATTRIBUTE@,
        rec[1].0 == STAKED_AT_ATTRIBUTE@,
        rec[2].0 == LAST_CLAIMED_ATTRIBUTE@,
    ensures
        without_keys(rec, staking_keys()) == Seq::<(Seq<char>, Seq<char>)>::empty(),
{
    let e = Seq::<(Seq<char>, Seq<char>)>::empty();
    assert(rec =~= e.push(rec[0]).push(rec[1]).push(rec[2]));
    assert(e.push(rec[0]).drop_last() =~= e);
    lemma_without_keys_push(e, rec[0], staking_keys());
    lemma_without_keys_push(e.push(rec[0]), rec[1], staking_keys());
    lemma_without_keys_push(e.push(rec[0]).push(rec[1]), rec[2], staking_keys());
}

/// A list with no key of a staking record reads as no record at all.
proof fn lemma_scan_without_record(s: Seq<(Seq<char>, Seq<char>)>, current: i64, freeze_period: u32)
    requires
        has_no_key_in(s, staking_keys()),
    ensures
        record_scan(s, current, freeze_period) == Ok::<RecordScan, ErrorCode>(scan_start()),
    decreases s.len(),
{
    if s.len() > 0 {
        lemma_scan_without_record(s.drop_last(), current, freeze_period);
        assert(!staking_keys().contains(s[s.len() - 1].0));
    }
}

/// A list with no count key records no count.
proof fn lemma_count_without_key(s: Seq<(Seq<char>, Seq<char>)>)
    requires
        has_no_key_in(s, count_key()),
    ensures
        recorded_count(s) == Ok::<Option<u64>, ErrorCode>(None),
    decreases s.len(),
{
    if s.len() > 0 {
        lemma_count_without_key(s.drop_last());
        assert(!count_key().contains(s[s.len() - 1].0));
    }
}

/// Unstaking undoes staking. Whatever attributes `s` an asset had, staking it
/// at `staked_at` keeps its other attributes `r` and appends the staking
/// record; unstaking that list at `current` then fails only where the time
/// since `staked_at` cannot be counted (`InvalidTimestamp`) or is fewer whole
/// days than the freeze period (`FreezePeriodNotElapsed`), and otherwise gives
/// back `r`, which is `s` itself where `s` held no staking record, with
/// rewards counted from `staked_at`.
pub proof fn lemma_unstake_undoes_stake(
    s: Seq<(Seq<char>, Seq<char>)>,
    staked_at: i64,
    current: i64,
    freeze_period: u32,
)
    ensures
        ({
            let r = without_keys(s, staking_keys());
            unstake_outcome(r + staking_record(staked_at), current, freeze_period) == match days_between(
                current as int,
                staked_at as int,
            ) {
                Err(e) => Err(e),
                Ok(days) => if days >= freeze_period {
                    Ok((r, staked_at, staked_at))
                } else {
                    Err(ErrorCode::FreezePeriodNotElapsed)
                },
            }
        }),
        has_no_key_in(s, staking_keys()) ==> without_keys(s, staking_keys()) == s,
{
    if has_no_key_in(s, staking_keys()) {
        lemma_without_absent_keys(s, staking_keys());
    }
    let r = without_keys(s, staking_keys());
    let rec = staking_record(staked_at);
    let l = r + rec;
    lemma_attribute_texts();
    lemma_parse_i64_of_decimal(staked_at);
    lemma_without_keys_has_none(s, staking_keys());
    lemma_scan_without_record(r, current, freeze_period);
    assert(timestamp_of(decimal_string(staked_at as int)) == Ok::<i64, ErrorCode>(staked_at));

    assert(l.drop_last().drop_last().drop_last() =~= r);
    assert(l.drop_last().drop_last().last() == rec[0]);
    assert(l.drop_last().last() == rec[1]);
    assert(l.last() == rec[2]);
    let st1 = RecordScan { found_staked: true, ..scan_start() };
    assert(record_scan(l.drop_last().drop_last(), current, freeze_period) == Ok::<
        RecordScan,
        ErrorCode,
    >(st1));
    match days_between(current as int, staked_at as int) {
        Err(e) => {
            assert(record_scan(l.drop_last(), current, freeze_period) == Err::<RecordScan, ErrorCode>(
                e,
            ));
        },
        Ok(days) => {
            if days >= freeze_period {
                let st2 = RecordScan { staked_timestamp: staked_at, found_staked_at: true, ..st1 };
                assert(record_scan(l.drop_last(), current, freeze_period) == Ok::<
                    RecordScan,
                    ErrorCode,
                >(st2));
                let st3 = RecordScan { claimed_timestamp: staked_at, ..st2 };
                assert(record_scan(l, current, freeze_period) == Ok::<RecordScan, ErrorCode>(st3));
            } else {
                assert(record_scan(l.drop_last(), current, freeze_period) == Err::<
                    RecordScan,
                    ErrorCode,
                >(ErrorCode::FreezePeriodNotElapsed));
            }
        },
    }

    lemma_without_keys_concat(r, rec, staking_keys());
    lemma_without_absent_keys(r, staking_keys());
    lemma_record_entries_are_staking_keys(rec);
    assert(r + Seq::<(Seq<char>, Seq<char>)>::empty() =~= r);
}

/// A staked asset cannot be staked again: after staking, its attribute list
/// holds `staked` = `true`.
pub proof fn lemma_staked_asset_is_marked(r: Seq<(Seq<char>, Seq<char>)>, staked_at: i64)
    ensures
        marked_staked(r + staking_record(staked_at)),
{
    lemma_attribute_texts();
    let l = r + staking_record(staked_at);
    assert(l[r.len() as int] == (STAKED_ATTRIBUTE@, "true"@));
    assert(l[r.len() as int].0 == STAKED_ATTRIBUTE@ && l[r.len() as int].1 != "false"@);
}

/// An unstaked asset can be staked again, and keeps its other attributes: the
/// list that unstaking leaves holds no staking record, so it is not marked as
/// staked, and it holds the same attributes outside the staking record as
/// before.
pub proof fn lemma_unstaked_asset_can_be_staked(
    s: Seq<(Seq<char>, Seq<char>)>,
    current: i64,
    freeze_period: u32,
)
    requires
        unstake_outcome(s, current, freeze_period) is Ok,
    ensures
        ({
            let l = unstake_outcome(s, current, freeze_period)->Ok_0.0;
            &&& !marked_staked(l)
            &&& has_no_key_in(l, staking_keys())
            &&& without_keys(l, staking_keys()) == without_keys(s, staking_keys())
        }),
{
    let r = without_keys(s, staking_keys());
    lemma_without_keys_has_none(s, staking_keys());
    lemma_without_absent_keys(r, staking_keys());
    assert forall|i: int| 0 <= i < r.len() implies #[trigger] r[i].0 != STAKED_ATTRIBUTE@ by {
        assert(!staking_keys().contains(r[i].0));
    }
}

/// Two moves of the collection's count are one move by their sum: where
/// moving the count of a collection with attributes `s` by `first` succeeds,
/// moving the written list by `second` gives the collection's other attributes
/// followed by its original count (0 where it recorded none) moved by
/// `first + second`, fails exactly where that count leaves the range of a
/// `u64`, and updates the plugin in place.
pub proof fn lemma_staked_count_moves_compose(
    s: Seq<(Seq<char>, Seq<char>)>,
    plugin_present: bool,
    first: i64,
    second: i64,
)
    requires
        i64::MIN <= first + second <= i64::MAX,
        staked_count_write(s, plugin_present, first) is Ok,
    ensures
        ({
            let written = staked_count_write(s, plugin_present, first)->Ok_0.0;
            let count: u64 = match recorded_count(s)->Ok_0 {
                Some(c) => c,
                None => 0,
            };
            staked_count_write(written, true, second) == match count_after(
                count,
                (first + second) as i64,
            ) {
                Err(e) => Err(e),
                Ok(n) => Ok(
                    (
                        without_keys(s, count_key()).push(
                            (STAKED_COUNT_ATTRIBUTE@, decimal_string(n as int)),
                        ),
                        false,
                    ),
                ),
            }
        }),
{
    let found = recorded_count(s)->Ok_0;
    let count: u64 = match found {
        Some(c) => c,
        None => 0,
    };
    let n = count_after(count, first)->Ok_0;
    let t = without_keys(s, count_key());
    let entry = (STAKED_COUNT_ATTRIBUTE@, decimal_string(n as int));
    let written = t.push(entry);
    assert(written == staked_count_write(s, plugin_present, first)->Ok_0.0);

    lemma_without_keys_has_none(s, count_key());
    lemma_count_without_key(t);
    lemma_parse_u64_of_decimal(n);
    assert(written.drop_last() =~= t);
    assert(recorded_count(written) == Ok::<Option<u64>, ErrorCode>(Some(n)));
    lemma_without_keys_push(t, entry, count_key());
    lemma_without_absent_keys(t, count_key());
}

/// Moving the collection's count back undoes moving it: where moving the
/// count by `delta` succeeds, moving the written list by `-delta` succeeds too,
/// updates the plugin, and writes the collection's other attributes followed
/// by its original count (0 where it recorded none). On a stake (`+1`)
/// followed by an unstake (`-1`) the count is back where it was.
pub proof fn lemma_staked_count_round_trip(
    s: Seq<(Seq<char>, Seq<char>)>,
    plugin_present: bool,
    delta: i64,
)
    requires
        delta > i64::MIN,
        staked_count_write(s, plugin_present, delta) is Ok,
    ensures
        ({
            let written = staked_count_write(s, plugin_present, delta)->Ok_0.0;
            let count: u64 = match recorded_count(s)->Ok_0 {
                Some(c) => c,
                None => 0,
            };
            staked_count_write(written, true, (-delta) as i64) == Ok::<
                (Seq<(Seq<char>, Seq<char>)>, bool),
                ErrorCode,
            >(
                (
                    without_keys(s, count_key()).push(
                        (STAKED_COUNT_ATTRIBUTE@, decimal_string(count as int)),
                    ),
                    false,
                ),
            )
        }),
{
    lemma_staked_count_moves_compose(s, plugin_present, delta, (-delta) as i64);
    let count: u64 = match recorded_count(s)->Ok_0 {
        Some(c) => c,
        None => 0,
    };
    assert(count_after(count, 0) == Ok::<u64, ErrorCode>(count));
}

/// Counting rewards from a claim never pays a day twice: for
/// `staked <= claimed <= now` with `now - staked` within an `i64`, the whole
/// days from staking to the claim plus those from the claim to `now` are at
/// most the whole days from staking to `now`, and at most one fewer.
pub proof fn lemma_claim_splits_reward_days(staked: i64, claimed: i64, now: i64)
    requires
        staked <= claimed <= now,
        now - staked <= i64::MAX,
    ensures
        days_between(claimed as int, staked as int) is Ok,
        days_between(now as int, claimed as int) is Ok,
        days_between(now as int, staked as int) is Ok,
        ({
            let before = days_between(claimed as int, staked as int)->Ok_0;
            let after = days_between(now as int, claimed as int)->Ok_0;
            let whole = days_between(now as int, staked as int)->Ok_0;
            before + after <= whole <= before + after + 1
        }),
{
    let x = claimed - staked;
    let y = now - claimed;
    assert(x / 86400 + y / 86400 <= (x + y) / 86400 <= x / 86400 + y / 86400 + 1)
        by (nonlinear_arith)
        requires
            x >= 0,
            y >= 0,
    ;
}

/// Whole days never decrease as time goes on: counted from the same start,
/// a later time gives at least as many days.
pub proof fn lemma_reward_days_grow(start: i64, earlier: i64, later: i64)
    requires
        earlier <= later,
        days_between(earlier as int, start as int) is Ok,
        days_between(later as int, start as int) is Ok,
    ensures
        days_between(earlier as int, start as int)->Ok_0 <= days_between(
            later as int,
            start as int,
        )->Ok_0,
{
    let a = earlier - start;
    let b = later - start;
    assert(div_toward_zero(a, 86400) <= div_toward_zero(b, 86400)) by (nonlinear_arith)
        requires
            a <= b,
    {
        if a >= 0 {
            assert(a / 86400 <= b / 86400);
        } else if b >= 0 {
            assert(-((-a) / 86400) <= 0);
        } else {
            assert((-b) / 86400 <= (-a) / 86400);
        }
    }
}

/// More days never earn less: for day counts `0 <= fewer <= more` whose
/// rewards are both computed, the reward for `more` is at least that for
/// `fewer`.
pub proof fn lemma_reward_grows_with_days(fewer: i64, more: i64, rewards_bps: u16, decimals: u8)
    requires
        0 <= fewer <= more,
        reward_for(fewer, rewards_bps, decimals) is Ok,
        reward_for(more, rewards_bps, decimals) is Ok,
    ensures
        reward_for(fewer, rewards_bps, decimals)->Ok_0 <= reward_for(
            more,
            rewards_bps,
            decimals,
        )->Ok_0,
{
    let p = vstd::arithmetic::power::pow(10, decimals as nat);
    vstd::arithmetic::power::lemma_pow_positive(10, decimals as nat);
    let x = fewer * rewards_bps * p;
    let y = more * rewards_bps * p;
    assert(x <= y) by (nonlinear_arith)
        requires
            0 <= fewer <= more,
            rewards_bps >= 0,
            p >= 0,
            x == fewer * rewards_bps * p,
            y == more * rewards_bps * p,
    ;
    assert(x / 10000 <= y / 10000) by (nonlinear_arith)
        requires
            x <= y,
    ;
}

/// Unstaking an asset that was staked at `staked_at` and never claimed on
/// pays the reward for the whole days since `staked_at`.
pub proof fn lemma_unstake_pays_since_stake(
    staked_at: i64,
    current: i64,
    rewards_bps: u16,
    decimals: u8,
)
    ensures
        unstake_reward_for(staked_at, staked_at, current, rewards_bps, decimals) == match days_between(
            current as int,
            staked_at as int,
        ) {
            Err(e) => RewardOutcome::Refused(e),
            Ok(days) => if reward_power_overflows(days, rewards_bps, decimals) {
                RewardOutcome::PowerOverflow
            } else {
                match reward_for(days, rewards_bps, decimals) {
                    Err(e) => RewardOutcome::Refused(e),
                    Ok(amount) => if amount > 0 {
                        RewardOutcome::Mint(amount)
                    } else {
                        RewardOutcome::Nothing
                    },
                }
            },
        },
{
    assert(later_of(staked_at as int, staked_at as int) == staked_at);
}

/// The count of staked assets that a collection's attribute list records,
/// 0 where it records none.
pub open spec fn collection_count(s: Seq<(Seq<char>, Seq<char>)>) -> int {
    match recorded_count(s) {
        Ok(Some(c)) => c as int,
        _ => 0,
    }
}

/// How many of the assets, given by their attribute lists, are staked.
pub open spec fn staked_assets(assets: Seq<Seq<(Seq<char>, Seq<char>)>>) -> int
    decreases assets.len(),
{
    if assets.len() == 0 {
        0
    } else {
        staked_assets(assets.drop_last()) + if marked_staked(assets.last()) {
            1int
        } else {
            0int
        }
    }
}

/// A number of assets is never negative.
proof fn lemma_staked_assets_nonnegative(assets: Seq<Seq<(Seq<char>, Seq<char>)>>)
    ensures
        staked_assets(assets) >= 0,
    decreases assets.len(),
{
    if assets.len() > 0 {
        lemma_staked_assets_nonnegative(assets.drop_last());
    }
}

/// Replacing one asset changes the number of staked assets only by that
/// asset's own change.
proof fn lemma_staked_assets_update(
    assets: Seq<Seq<(Seq<char>, Seq<char>)>>,
    i: int,
    x: Seq<(Seq<char>, Seq<char>)>,
)
    requires
        0 <= i < assets.len(),
    ensures
        staked_assets(assets.update(i, x)) == staked_assets(assets) - (if marked_staked(assets[i]) {
            1int
        } else {
            0int
        }) + (if marked_staked(x) {
            1int
        } else {
            0int
        }),
    decreases assets.len(),
{
    let u = assets.update(i, x);
    if i == assets.len() - 1 {
        assert(u.drop_last() =~= assets.drop_last());
    } else {
        assert(u.drop_last() =~= assets.drop_last().update(i, x));
        lemma_staked_assets_update(assets.drop_last(), i, x);
    }
}

/// The count that a successful move of the collection's count writes is the
/// recorded count moved by `delta`.
proof fn lemma_written_count(s: Seq<(Seq<char>, Seq<char>)>, plugin_present: bool, delta: i64)
    requires
        staked_count_write(s, plugin_present, delta) is Ok,
    ensures
        collection_count(staked_count_write(s, plugin_present, delta)->Ok_0.0) == collection_count(s)
            + delta,
        recorded_count(staked_count_write(s, plugin_present, delta)->Ok_0.0) is Ok,
{
    let count: u64 = match recorded_count(s)->Ok_0 {
        Some(c) => c,
        None => 0,
    };
    let n = count_after(count, delta)->Ok_0;
    let t = without_keys(s, count_key());
    let written = t.push((STAKED_COUNT_ATTRIBUTE@, decimal_string(n as int)));
    lemma_without_keys_has_none(s, count_key());
    lemma_count_without_key(t);
    lemma_parse_u64_of_decimal(n);
    assert(written.drop_last() =~= t);
    assert(recorded_count(written) == Ok::<Option<u64>, ErrorCode>(Some(n)));
}

/// Where every `staked` entry read says `true` and one was met, the list is
/// marked as staked.
proof fn lemma_scan_found_staked(s: Seq<(Seq<char>, Seq<char>)>, current: i64, freeze_period: u32)
    requires
        record_scan(s, current, freeze_period) is Ok,
        record_scan(s, current, freeze_period)->Ok_0.found_staked,
    ensures
        marked_staked(s),
    decreases s.len(),
{
    lemma_attribute_texts();
    let prev = record_scan(s.drop_last(), current, freeze_period);
    if prev->Ok_0.found_staked {
        lemma_scan_found_staked(s.drop_last(), current, freeze_period);
        let j = choose|j: int|
            0 <= j < s.drop_last().len() && #[trigger] s.drop_last()[j].0 == STAKED_ATTRIBUTE@
                && s.drop_last()[j].1 != "false"@;
        assert(s[j] == s.drop_last()[j]);
    } else {
        assert(s[s.len() - 1].0 == STAKED_ATTRIBUTE@ && s[s.len() - 1].1 != "false"@);
    }
}

/// The collection's count stays the number of its staked assets across a
/// stake. `assets` are the attribute lists of the collection's assets and
/// `collection` the collection's own list, whose count equals the number of
/// staked assets. Staking asset `i` at `timestamp`, which succeeds only where
/// it is not staked, writes its retained attributes and the staking record;
/// where the count moves by `+1` (it fails only at `u64::MAX`), the written
/// count equals the number of staked assets afterwards.
pub proof fn lemma_stake_keeps_count(
    assets: Seq<Seq<(Seq<char>, Seq<char>)>>,
    collection: Seq<(Seq<char>, Seq<char>)>,
    plugin_present: bool,
    i: int,
    timestamp: i64,
)
    requires
        0 <= i < assets.len(),
        !marked_staked(assets[i]),
        recorded_count(collection) is Ok,
        collection_count(collection) == staked_assets(assets),
        staked_count_write(collection, plugin_present, 1i64) is Ok,
    ensures
        ({
            let staked = without_keys(assets[i], staking_keys()) + staking_record(timestamp);
            let written = staked_count_write(collection, plugin_present, 1i64)->Ok_0.0;
            &&& recorded_count(written) is Ok
            &&& collection_count(written) == staked_assets(assets.update(i, staked))
        }),
{
    let staked = without_keys(assets[i], staking_keys()) + staking_record(timestamp);
    lemma_staked_asset_is_marked(without_keys(assets[i], staking_keys()), timestamp);
    lemma_staked_assets_update(assets, i, staked);
    lemma_written_count(collection, plugin_present, 1i64);
}

/// The collection's count stays the number of its staked assets across an
/// unstake. Where the count equals the number of staked assets and unstaking
/// asset `i` succeeds, the asset was staked, so the count is at least 1 and
/// moving it by `-1` succeeds; the written count equals the number of staked
/// assets afterwards, the asset being no longer staked.
pub proof fn lemma_unstake_keeps_count(
    assets: Seq<Seq<(Seq<char>, Seq<char>)>>,
    collection: Seq<(Seq<char>, Seq<char>)>,
    plugin_present: bool,
    i: int,
    current: i64,
    freeze_period: u32,
)
    requires
        0 <= i < assets.len(),
        unstake_outcome(assets[i], current, freeze_period) is Ok,
        recorded_count(collection) is Ok,
        collection_count(collection) == staked_assets(assets),
    ensures
        marked_staked(assets[i]),
        staked_count_write(collection, plugin_present, -1i64) is Ok,
        ({
            let unstaked = unstake_outcome(assets[i], current, freeze_period)->Ok_0.0;
            let written = staked_count_write(collection, plugin_present, -1i64)->Ok_0.0;
            &&& !marked_staked(unstaked)
            &&& recorded_count(written) is Ok
            &&& collection_count(written) == staked_assets(assets.update(i, unstaked))
        }),
{
    let a = assets[i];
    lemma_scan_found_staked(a, current, freeze_period);
    lemma_unstaked_asset_can_be_staked(a, current, freeze_period);
    let unstaked = unstake_outcome(a, current, freeze_period)->Ok_0.0;
    lemma_staked_assets_update(assets, i, unstaked);
    lemma_staked_assets_nonnegative(assets.update(i, unstaked));
    assert(staked_assets(assets) >= 1);
    lemma_written_count(collection, plugin_present, -1i64);
}

/// A stake followed by an unstake gives everything back. An asset with the
/// attributes `a` (holding no staking record) is staked at `staked_at`, the
/// collection's count moving by `+1`; where the asset is unstaked at
/// `current`, at least the freeze period later, the asset's attributes are `a`
/// again, the reward paid is the one for the whole days since `staked_at`, and
/// moving the count by `-1` writes the collection's original count back.
pub proof fn lemma_stake_then_unstake_restores(
    a: Seq<(Seq<char>, Seq<char>)>,
    collection: Seq<(Seq<char>, Seq<char>)>,
    plugin_present: bool,
    staked_at: i64,
    current: i64,
    freeze_period: u32,
    rewards_bps: u16,
    decimals: u8,
)
    requires
        has_no_key_in(a, staking_keys()),
        staked_count_write(collection, plugin_present, 1i64) is Ok,
        days_between(current as int, staked_at as int) is Ok,
        days_between(current as int, staked_at as int)->Ok_0 >= freeze_period,
    ensures
        !marked_staked(a),
        without_keys(a, staking_keys()) == a,
        unstake_outcome(a + staking_record(staked_at), current, freeze_period) == Ok::<
            (Seq<(Seq<char>, Seq<char>)>, i64, i64),
            ErrorCode,
        >((a, staked_at, staked_at)),
        ({
            let days = days_between(current as int, staked_at as int)->Ok_0;
            unstake_reward_for(staked_at, staked_at, current, rewards_bps, decimals) == if reward_power_overflows(days, rewards_bps, decimals) {
                RewardOutcome::PowerOverflow
            } else {
                match reward_for(days, rewards_bps, decimals) {
                    Err(e) => RewardOutcome::Refused(e),
                    Ok(amount) => if amount > 0 {
                        RewardOutcome::Mint(amount)
                    } else {
                        RewardOutcome::Nothing
                    },
                }
            }
        }),
        ({
            let written = staked_count_write(collection, plugin_present, 1i64)->Ok_0.0;
            let count: u64 = match recorded_count(collection)->Ok_0 {
                Some(c) => c,
                None => 0,
            };
            staked_count_write(written, true, -1i64) == Ok::<
                (Seq<(Seq<char>, Seq<char>)>, bool),
                ErrorCode,
            >(
                (
                    without_keys(collection, count_key()).push(
                        (STAKED_COUNT_ATTRIBUTE@, decimal_string(count as int)),
                    ),
                    false,
                ),
            )
        }),
{
    lemma_attribute_texts();
    lemma_without_absent_keys(a, staking_keys());
    assert forall|j: int| 0 <= j < a.len() implies !(#[trigger] a[j].0 == STAKED_ATTRIBUTE@) by {
        assert(!staking_keys().contains(a[j].0));
    }
    lemma_unstake_undoes_stake(a, staked_at, current, freeze_period);
    lemma_unstake_pays_since_stake(staked_at, current, rewards_bps, decimals);
    lemma_staked_count_round_trip(collection, plugin_present, 1i64);
}

/// Rewards count from the later of the stake and the last claim:
/// `later_of` is the greater of its two timestamps.
pub proof fn lemma_later_of_is_max(staked_timestamp: int, claimed_timestamp: int)
    ensures
        later_of(staked_timestamp, claimed_timestamp) >= staked_timestamp,
        later_of(staked_timestamp, claimed_timestamp) >= claimed_timestamp,
        later_of(staked_timestamp, claimed_timestamp) == staked_timestamp || later_of(
            staked_timestamp,
            claimed_timestamp,
        ) == claimed_timestamp,
{
}

/// Whole days are counted exactly: the count fails only where the difference
/// of the two timestamps leaves the `i64` range; forward in time it is the
/// number `d` of whole days with `d * 86400 <= current - start < (d + 1) *
/// 86400`, and backward in time the same count, negated.
pub proof fn lemma_whole_days(current: i64, start: i64)
    ensures
        days_between(current as int, start as int) is Ok <==> (i64::MIN <= current - start
            <= i64::MAX),
        days_between(current as int, start as int) is Err ==> days_between(
            current as int,
            start as int,
        ) == Err::<i64, ErrorCode>(ErrorCode::InvalidTimestamp),
        days_between(current as int, start as int) is Ok && current >= start ==> {
            let d = days_between(current as int, start as int)->Ok_0 as int;
            &&& 0 <= d
            &&& d * 86400 <= current - start < (d + 1) * 86400
        },
        days_between(current as int, start as int) is Ok && current < start ==> {
            let d = days_between(current as int, start as int)->Ok_0 as int;
            &&& d <= 0
            &&& (-d) * 86400 <= start - current < (-d + 1) * 86400
        },
{
    let diff = current - start;
    if i64::MIN <= diff <= i64::MAX {
        if diff >= 0 {
            let q = diff / 86400;
            assert(0 <= q && q * 86400 <= diff < (q + 1) * 86400) by (nonlinear_arith)
                requires
                    diff >= 0,
                    q == diff / 86400,
            ;
        } else {
            let q = (-diff) / 86400;
            assert(0 <= q && q * 86400 <= -diff < (q + 1) * 86400) by (nonlinear_arith)
                requires
                    -diff > 0,
                    q == (-diff) / 86400,
            ;
            assert(div_toward_zero(diff, 86400) == -q);
        }
    }
}

/// The reward is the closed formula `days * rewards_bps * 10^decimals / 10000`
/// (rounded down), for any basis points, with the days read as the `as u64`
/// cast reads them; it is refused (`InvalidRewardsBps`) exactly where that
/// product exceeds `u64::MAX`.
pub proof fn lemma_reward_formula(days: i64, rewards_bps: u16, decimals: u8)
    ensures
        ({
            let d: int = if days >= 0 {
                days as int
            } else {
                days + 0x1_0000_0000_0000_0000
            };
            let total = d * rewards_bps * pow(10, decimals as nat);
            reward_for(days, rewards_bps, decimals) == if total <= u64::MAX {
                Ok::<u64, ErrorCode>((total / 10000) as u64)
            } else {
                Err::<u64, ErrorCode>(ErrorCode::InvalidRewardsBps)
            }
        }),
{
    let d: int = if days >= 0 {
        days as int
    } else {
        days + 0x1_0000_0000_0000_0000
    };
    let p = pow(10, decimals as nat);
    lemma_pow_positive(10, decimals as nat);
    let scaled = d * rewards_bps;
    assert(scaled >= 0) by (nonlinear_arith)
        requires
            d >= 0,
            rewards_bps >= 0,
            scaled == d * rewards_bps,
    ;
    assert(scaled * p >= scaled) by (nonlinear_arith)
        requires
            scaled >= 0,
            p >= 1,
    ;
    assert(d * rewards_bps * p == scaled * p);
}

/// The power `10^decimals` overflows exactly where it exceeds `u64::MAX`, and
/// the computation reaches it only where the days times the basis points fit
/// in a `u64`.
pub proof fn lemma_power_overflow_exact(days: i64, rewards_bps: u16, decimals: u8)
    ensures
        ({
            let d: int = if days >= 0 {
                days as int
            } else {
                days + 0x1_0000_0000_0000_0000
            };
            reward_power_overflows(days, rewards_bps, decimals) <==> (d * rewards_bps
                <= u64::MAX && pow(10, decimals as nat) > u64::MAX)
        }),
{
    if decimals <= 19 {
        lemma_pow_increases(10, decimals as nat, 19);
        reveal_with_fuel(pow, 20);
        assert(pow(10, 19) == 10_000_000_000_000_000_000);
    } else {
        lemma_pow_increases(10, 20, decimals as nat);
        reveal_with_fuel(pow, 21);
        assert(pow(10, 20) == 100_000_000_000_000_000_000);
    }
}

/// A claim moves where the reward starts: where the last claim is at or after
/// the stake, unstaking pays what it would pay for an asset staked at the
/// claim, so no day before the claim is paid twice; where it is not after the
/// stake, it pays what it would for an asset never claimed on.
pub proof fn lemma_reward_counts_from_last_claim(
    staked_timestamp: i64,
    claimed_timestamp: i64,
    current: i64,
    rewards_bps: u16,
    decimals: u8,
)
    ensures
        staked_timestamp <= claimed_timestamp ==> unstake_reward_for(
            staked_timestamp,
            claimed_timestamp,
            current,
            rewards_bps,
            decimals,
        ) == unstake_reward_for(claimed_timestamp, claimed_timestamp, current, rewards_bps, decimals),
        claimed_timestamp <= staked_timestamp ==> unstake_reward_for(
            staked_timestamp,
            claimed_timestamp,
            current,
            rewards_bps,
            decimals,
        ) == unstake_reward_for(staked_timestamp, staked_timestamp, current, rewards_bps, decimals),
{
}

/// A staking record with the stake at `staked_at` and the last claim at
/// `claimed_at`, as a stake writes it and a claim updates it.
pub open spec fn record_with_claim(staked_at: i64, claimed_at: i64) -> Seq<(Seq<char>, Seq<char>)> {
    seq![
        (STAKED_ATTRIBUTE@, "true"@),
        (STAKED_AT_ATTRIBUTE@, decimal_string(staked_at as int)),
        (LAST_CLAIMED_ATTRIBUTE@, decimal_string(claimed_at as int)),
    ]
}

/// The freeze period counts from the stake only: the last claim never decides
/// whether unstaking succeeds. For an asset with other attributes `r` whose
/// record says it was staked at `staked_at` and last claimed on at
/// `claimed_at` (any time), unstaking at `current` fails only where the time
/// since `staked_at` cannot be counted or is fewer whole days than the freeze
/// period, and otherwise gives back `r` and both timestamps. Forward in time,
/// it succeeds exactly when at least `freeze_period * 86400` seconds have
/// passed since `staked_at`.
pub proof fn lemma_freeze_counts_from_stake(
    r: Seq<(Seq<char>, Seq<char>)>,
    staked_at: i64,
    claimed_at: i64,
    current: i64,
    freeze_period: u32,
)
    requires
        has_no_key_in(r, staking_keys()),
    ensures
        unstake_outcome(r + record_with_claim(staked_at, claimed_at), current, freeze_period)
            == match days_between(current as int, staked_at as int) {
            Err(e) => Err(e),
            Ok(days) => if days >= freeze_period {
                Ok((r, staked_at, claimed_at))
            } else {
                Err(ErrorCode::FreezePeriodNotElapsed)
            },
        },
        staked_at <= current && current - staked_at <= i64::MAX ==> (unstake_outcome(
            r + record_with_claim(staked_at, claimed_at),
            current,
            freeze_period,
        ) == if current - staked_at >= freeze_period * 86400 {
            Ok::<(Seq<(Seq<char>, Seq<char>)>, i64, i64), ErrorCode>((r, staked_at, claimed_at))
        } else {
            Err::<(Seq<(Seq<char>, Seq<char>)>, i64, i64), ErrorCode>(
                ErrorCode::FreezePeriodNotElapsed,
            )
        }),
{
    let rec = record_with_claim(staked_at, claimed_at);
    let l = r + rec;
    lemma_attribute_texts();
    lemma_parse_i64_of_decimal(staked_at);
    lemma_parse_i64_of_decimal(claimed_at);
    lemma_scan_without_record(r, current, freeze_period);
    assert(timestamp_of(decimal_string(staked_at as int)) == Ok::<i64, ErrorCode>(staked_at));
    assert(timestamp_of(decimal_string(claimed_at as int)) == Ok::<i64, ErrorCode>(claimed_at));

    assert(l.drop_last().drop_last().drop_last() =~= r);
    assert(l.drop_last().drop_last().last() == rec[0]);
    assert(l.drop_last().last() == rec[1]);
    assert(l.last() == rec[2]);
    let st1 = RecordScan { found_staked: true, ..scan_start() };
    assert(record_scan(l.drop_last().drop_last(), current, freeze_period) == Ok::<
        RecordScan,
        ErrorCode,
    >(st1));
    match days_between(current as int, staked_at as int) {
        Err(e) => {
            assert(record_scan(l.drop_last(), current, freeze_period) == Err::<RecordScan, ErrorCode>(
                e,
            ));
        },
        Ok(days) => {
            if days >= freeze_period {
                let st2 = RecordScan { staked_timestamp: staked_at, found_staked_at: true, ..st1 };
                assert(record_scan(l.drop_last(), current, freeze_period) == Ok::<
                    RecordScan,
                    ErrorCode,
                >(st2));
                let st3 = RecordScan { claimed_timestamp: claimed_at, ..st2 };
                assert(record_scan(l, current, freeze_period) == Ok::<RecordScan, ErrorCode>(st3));
            } else {
                assert(record_scan(l.drop_last(), current, freeze_period) == Err::<
                    RecordScan,
                    ErrorCode,
                >(ErrorCode::FreezePeriodNotElapsed));
            }
        },
    }
    lemma_without_keys_concat(r, rec, staking_keys());
    lemma_without_absent_keys(r, staking_keys());
    lemma_record_entries_are_staking_keys(rec);
    assert(r + Seq::<(Seq<char>, Seq<char>)>::empty() =~= r);

    lemma_whole_days(current, staked_at);
    if staked_at <= current && current - staked_at <= i64::MAX {
        let d = days_between(current as int, staked_at as int)->Ok_0 as int;
        let diff = current - staked_at;
        let f = freeze_period as int;
        assert(d >= f <==> diff >= f * 86400) by (nonlinear_arith)
            requires
                d >= 0,
                f >= 0,
                d * 86400 <= diff,
                diff < (d + 1) * 86400,
        ;
    }
}

/// The collection's count is read from its attributes as documented: reading
/// succeeds exactly when every `staked_count` entry holds a `u64`, and fails
/// with `InvalidStakedCount` otherwise; it finds no count exactly when there is
/// no `staked_count` entry; and a count found is the value of the last
/// `staked_count` entry.
pub proof fn lemma_recorded_count_is_last_entry(s: Seq<(Seq<char>, Seq<char>)>)
    ensures
        (forall|i: int|
            0 <= i < s.len() && #[trigger] s[i].0 == STAKED_COUNT_ATTRIBUTE@ ==> parse_u64_decimal(
                s[i].1,
            ) is Some) <==> recorded_count(s) is Ok,
        recorded_count(s) is Err ==> recorded_count(s) == Err::<Option<u64>, ErrorCode>(
            ErrorCode::InvalidStakedCount,
        ),
        recorded_count(s) == Ok::<Option<u64>, ErrorCode>(None) ==> (forall|i: int|
            0 <= i < s.len() ==> #[trigger] s[i].0 != STAKED_COUNT_ATTRIBUTE@),
        recorded_count(s) is Ok && (forall|i: int|
            0 <= i < s.len() ==> #[trigger] s[i].0 != STAKED_COUNT_ATTRIBUTE@) ==> recorded_count(s)
            == Ok::<Option<u64>, ErrorCode>(None),
        recorded_count(s) matches Ok(Some(n)) ==> exists|i: int|
            0 <= i < s.len() && #[trigger] s[i].0 == STAKED_COUNT_ATTRIBUTE@ && parse_u64_decimal(
                s[i].1,
            ) == Some(n) && (forall|j: int| i < j < s.len() ==> s[j].0 != STAKED_COUNT_ATTRIBUTE@),
    decreases s.len(),
{
    if s.len() > 0 {
        let p = s.drop_last();
        let k = s.len() - 1;
        lemma_recorded_count_is_last_entry(p);
        assert forall|i: int| 0 <= i < p.len() implies #[trigger] p[i] == s[i] by {}
        if recorded_count(p) is Ok {
            assert(forall|i: int|
                0 <= i < p.len() && #[trigger] p[i].0 == STAKED_COUNT_ATTRIBUTE@ ==> parse_u64_decimal(
                    p[i].1,
                ) is Some);
            if s[k].0 == STAKED_COUNT_ATTRIBUTE@ {
                if parse_u64_decimal(s[k].1) is Some {
                    assert(s[k].0 == STAKED_COUNT_ATTRIBUTE@ && parse_u64_decimal(s[k].1)
                        == Some(parse_u64_decimal(s[k].1)->0));
                    assert forall|i: int|
                        0 <= i < s.len() && #[trigger] s[i].0
                            == STAKED_COUNT_ATTRIBUTE@ implies parse_u64_decimal(s[i].1) is Some by {
                        if i < k {
                            assert(p[i] == s[i]);
                        }
                    }
                }
            } else {
                assert forall|i: int|
                    0 <= i < s.len() && #[trigger] s[i].0
                        == STAKED_COUNT_ATTRIBUTE@ implies parse_u64_decimal(s[i].1) is Some by {
                    if i < k {
                        assert(p[i] == s[i]);
                    }
                }
                if recorded_count(p) == Ok::<Option<u64>, ErrorCode>(None) {
                    assert forall|i: int| 0 <= i < s.len() implies #[trigger] s[i].0
                        != STAKED_COUNT_ATTRIBUTE@ by {
                        if i < k {
                            assert(p[i] == s[i]);
                        }
                    }
                }
                if let Ok(Some(n)) = recorded_count(p) {
                    let i = choose|i: int|
                        0 <= i < p.len() && #[trigger] p[i].0 == STAKED_COUNT_ATTRIBUTE@
                            && parse_u64_decimal(p[i].1) == Some(n) && (forall|j: int|
                            i < j < p.len() ==> p[j].0 != STAKED_COUNT_ATTRIBUTE@);
                    assert(s[i] == p[i]);
                    assert forall|j: int| i < j < s.len() implies s[j].0
                        != STAKED_COUNT_ATTRIBUTE@ by {
                        if j < k {
                            assert(p[j] == s[j]);
                        }
                    }
                }
                if (forall|i: int| 0 <= i < s.len() ==> #[trigger] s[i].0 != STAKED_COUNT_ATTRIBUTE@) {
                    assert forall|i: int| 0 <= i < p.len() implies #[trigger] p[i].0
                        != STAKED_COUNT_ATTRIBUTE@ by {
                        assert(p[i] == s[i]);
                    }
                }
            }
        } else {
            let i = choose|i: int|
                !(0 <= i < p.len() && #[trigger] p[i].0 == STAKED_COUNT_ATTRIBUTE@
                    ==> parse_u64_decimal(p[i].1) is Some);
            assert(s[i] == p[i]);
        }
    }
}

/// Moving the collection's count succeeds exactly when the count can be read
/// and the moved count fits in a `u64`, wherever the count entry stands. The
/// written list holds the collection's other attributes unchanged and in
/// their order, followed by a single count entry whose value reads back as the
/// moved count; the plugin is added exactly where it was absent or held no
/// count.
pub proof fn lemma_count_write_exact(s: Seq<(Seq<char>, Seq<char>)>, plugin_present: bool, delta: i64)
    ensures
        ({
            let count: int = match recorded_count(s) {
                Ok(Some(c)) => c as int,
                _ => 0,
            };
            staked_count_write(s, plugin_present, delta) is Ok <==> (recorded_count(s) is Ok && 0
                <= count + delta <= u64::MAX)
        }),
        staked_count_write(s, plugin_present, delta) is Ok ==> ({
            let count: int = match recorded_count(s) {
                Ok(Some(c)) => c as int,
                _ => 0,
            };
            let written = staked_count_write(s, plugin_present, delta)->Ok_0;
            &&& recorded_count(written.0) == Ok::<Option<u64>, ErrorCode>(
                Some((count + delta) as u64),
            )
            &&& without_keys(written.0, count_key()) == without_keys(s, count_key())
            &&& written.0.len() == without_keys(s, count_key()).len() + 1
            &&& written.0.last() == (
                STAKED_COUNT_ATTRIBUTE@,
                decimal_string(count + delta),
            )
            &&& written.1 == (!plugin_present || recorded_count(s) == Ok::<
                Option<u64>,
                ErrorCode,
            >(None))
        }),
{
    if staked_count_write(s, plugin_present, delta) is Ok {
        lemma_written_count(s, plugin_present, delta);
        let t = without_keys(s, count_key());
        let count: u64 = match recorded_count(s)->Ok_0 {
            Some(c) => c,
            None => 0,
        };
        let n = count_after(count, delta)->Ok_0;
        let entry = (STAKED_COUNT_ATTRIBUTE@, decimal_string(n as int));
        lemma_without_keys_has_none(s, count_key());
        lemma_without_keys_push(t, entry, count_key());
        lemma_without_absent_keys(t, count_key());
        lemma_count_without_key(t);
        lemma_parse_u64_of_decimal(n);
        assert(t.push(entry).drop_last() =~= t);
    }
}

/// Staking is refused exactly when some `staked` entry of the asset holds a
/// value other than `false`.
pub proof fn lemma_stake_refusal_exact(s: Seq<(Seq<char>, Seq<char>)>)
    ensures
        marked_staked(s) <==> exists|i: int|
            0 <= i < s.len() && s[i].0 == STAKED_ATTRIBUTE@ && #[trigger] s[i].1 != "false"@,
{
    if marked_staked(s) {
        let i = choose|i: int|
            0 <= i < s.len() && #[trigger] s[i].0 == STAKED_ATTRIBUTE@ && s[i].1 != "false"@;
        assert(s[i].1 != "false"@);
    }
    if exists|i: int| 0 <= i < s.len() && s[i].0 == STAKED_ATTRIBUTE@ && #[trigger] s[i].1 != "false"@ {
        let i = choose|i: int|
            0 <= i < s.len() && s[i].0 == STAKED_ATTRIBUTE@ && #[trigger] s[i].1 != "false"@;
        assert(s[i].0 == STAKED_ATTRIBUTE@);
    }
}

/// A timestamp written by staking reads back as the same timestamp, and a
/// value that does not read as an `i64` is refused with `InvalidTimestamp`.
pub proof fn lemma_timestamp_reads_back(t: i64, value: Seq<char>)
    ensures
        timestamp_of(decimal_string(t as int)) == Ok::<i64, ErrorCode>(t),
        timestamp_of(value) is Err ==> timestamp_of(value) == Err::<i64, ErrorCode>(
            ErrorCode::InvalidTimestamp,
        ),
{
    lemma_parse_i64_of_decimal(t);
}

/// What reading a staking record has seen: every `staked` entry read says
/// `true`; a `staked` entry was met exactly when one is present, and a
/// `staked_at` entry was met exactly when one is present.
proof fn lemma_scan_sees_record(s: Seq<(Seq<char>, Seq<char>)>, current: i64, freeze_period: u32)
    requires
        record_scan(s, current, freeze_period) is Ok,
    ensures
        forall|i: int|
            0 <= i < s.len() && #[trigger] s[i].0 == STAKED_ATTRIBUTE@ ==> s[i].1 == "true"@,
        record_scan(s, current, freeze_period)->Ok_0.found_staked <==> exists|i: int|
            0 <= i < s.len() && #[trigger] s[i].0 == STAKED_ATTRIBUTE@,
        record_scan(s, current, freeze_period)->Ok_0.found_staked_at <==> exists|i: int|
            0 <= i < s.len() && #[trigger] s[i].0 == STAKED_AT_ATTRIBUTE@,
    decreases s.len(),
{
    lemma_attribute_texts();
    if s.len() > 0 {
        let p = s.drop_last();
        let k = s.len() - 1;
        lemma_scan_sees_record(p, current, freeze_period);
        assert forall|i: int| 0 <= i < p.len() implies #[trigger] p[i] == s[i] by {}
        assert forall|i: int|
            0 <= i < s.len() && #[trigger] s[i].0 == STAKED_ATTRIBUTE@ implies s[i].1 == "true"@ by {
            if i < k {
                assert(p[i] == s[i]);
            }
        }
        if exists|i: int| 0 <= i < s.len() && #[trigger] s[i].0 == STAKED_ATTRIBUTE@ {
            let i = choose|i: int| 0 <= i < s.len() && #[trigger] s[i].0 == STAKED_ATTRIBUTE@;
            if i < k {
                assert(p[i].0 == STAKED_ATTRIBUTE@);
            }
        }
        if exists|i: int| 0 <= i < p.len() && #[trigger] p[i].0 == STAKED_ATTRIBUTE@ {
            let i = choose|i: int| 0 <= i < p.len() && #[trigger] p[i].0 == STAKED_ATTRIBUTE@;
            assert(s[i].0 == STAKED_ATTRIBUTE@);
        }
        if exists|i: int| 0 <= i < s.len() && #[trigger] s[i].0 == STAKED_AT_ATTRIBUTE@ {
            let i = choose|i: int| 0 <= i < s.len() && #[trigger] s[i].0 == STAKED_AT_ATTRIBUTE@;
            if i < k {
                assert(p[i].0 == STAKED_AT_ATTRIBUTE@);
            }
        }
        if exists|i: int| 0 <= i < p.len() && #[trigger] p[i].0 == STAKED_AT_ATTRIBUTE@ {
            let i = choose|i: int| 0 <= i < p.len() && #[trigger] p[i].0 == STAKED_AT_ATTRIBUTE@;
            assert(s[i].0 == STAKED_AT_ATTRIBUTE@);
        }
        if s[k].0 == STAKED_ATTRIBUTE@ {
            assert(s[k].0 == STAKED_ATTRIBUTE@);
        }
        if s[k].0 == STAKED_AT_ATTRIBUTE@ {
            assert(s[k].0 == STAKED_AT_ATTRIBUTE@);
        }
    }
}

/// Unstaking needs a staking record: where it succeeds, the asset has a
/// `staked` entry, every `staked` entry says `true`, and it has a `staked_at`
/// entry; where an asset has no `staked` entry or no `staked_at` entry,
/// unstaking fails.
pub proof fn lemma_unstake_needs_record(s: Seq<(Seq<char>, Seq<char>)>, current: i64, freeze_period: u32)
    ensures
        unstake_outcome(s, current, freeze_period) is Ok ==> {
            &&& exists|i: int| 0 <= i < s.len() && #[trigger] s[i].0 == STAKED_ATTRIBUTE@
            &&& forall|i: int|
                0 <= i < s.len() && #[trigger] s[i].0 == STAKED_ATTRIBUTE@ ==> s[i].1 == "true"@
            &&& exists|i: int| 0 <= i < s.len() && #[trigger] s[i].0 == STAKED_AT_ATTRIBUTE@
        },
        (forall|i: int| 0 <= i < s.len() ==> #[trigger] s[i].0 != STAKED_ATTRIBUTE@) ==> unstake_outcome(
            s,
            current,
            freeze_period,
        ) is Err,
        (forall|i: int| 0 <= i < s.len() ==> #[trigger] s[i].0 != STAKED_AT_ATTRIBUTE@)
            ==> unstake_outcome(s, current, freeze_period) is Err,
{
    if record_scan(s, current, freeze_period) is Ok {
        lemma_scan_sees_record(s, current, freeze_period);
    }
}

} // verus!
