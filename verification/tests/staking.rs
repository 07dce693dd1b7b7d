use anchor_core_staking::attribute::Attribute;
use anchor_core_staking::error::ErrorCode;
use anchor_core_staking::instructions::stake;
use anchor_core_staking::instructions::unstake::{self, RewardOutcome};
use anchor_core_staking::instructions::utils::{
    parse_i64_attribute, reward_amount, reward_days, reward_power_overflow,
    reward_start_timestamp, update_collection_staked_count, SECONDS_PER_DAY,
};

fn attr(key: &str, value: &str) -> Attribute {
    Attribute { key: key.to_string(), value: value.to_string() }
}

fn pairs(list: &[Attribute]) -> Vec<(String, String)> {
    list.iter().map(|a| (a.key.clone(), a.value.clone())).collect()
}

fn owned(list: &[(&str, &str)]) -> Vec<(String, String)> {
    list.iter().map(|(k, v)| (k.to_string(), v.to_string())).collect()
}

const DAY: i64 = 86400;
const T0: i64 = 1_700_000_000;

// ---- timestamps ----

#[test]
fn parse_timestamp_reads_decimal() {
    assert_eq!(parse_i64_attribute(&attr("staked_at", "1700000000")), Ok(1_700_000_000));
    assert_eq!(parse_i64_attribute(&attr("staked_at", "-42")), Ok(-42));
    assert_eq!(parse_i64_attribute(&attr("staked_at", "+7")), Ok(7));
    assert_eq!(parse_i64_attribute(&attr("staked_at", "007")), Ok(7));
    assert_eq!(
        parse_i64_attribute(&attr("staked_at", "-9223372036854775808")),
        Ok(i64::MIN)
    );
}

#[test]
fn parse_timestamp_rejects_other_text() {
    for bad in ["", "+", "-", "abc", "12a", " 1", "1.5", "9223372036854775808", "+-1"] {
        assert_eq!(
            parse_i64_attribute(&attr("staked_at", bad)),
            Err(ErrorCode::InvalidTimestamp),
            "{:?}",
            bad
        );
    }
}

// ---- rewards ----

#[test]
fn reward_start_is_the_later_timestamp() {
    assert_eq!(reward_start_timestamp(10, 20), 20);
    assert_eq!(reward_start_timestamp(20, 10), 20);
    assert_eq!(reward_start_timestamp(5, 5), 5);
    assert_eq!(reward_start_timestamp(T0, 0), T0);
}

#[test]
fn reward_days_counts_whole_days() {
    assert_eq!(SECONDS_PER_DAY, 86400);
    assert_eq!(reward_days(T0 + 3 * DAY + 5, T0), Ok(3));
    assert_eq!(reward_days(T0 + DAY - 1, T0), Ok(0));
    assert_eq!(reward_days(T0, T0 + DAY + 1), Ok(-1));
    assert_eq!(reward_days(T0, T0 + DAY - 1), Ok(0));
}

#[test]
fn reward_days_rejects_overflowing_difference() {
    assert_eq!(reward_days(i64::MAX, -1), Err(ErrorCode::InvalidTimestamp));
    assert_eq!(reward_days(i64::MIN, 1), Err(ErrorCode::InvalidTimestamp));
}

#[test]
fn reward_amount_formula() {
    // 3 days at 500 bps with 6 decimals: 3 * 500 * 10^6 / 10000
    assert_eq!(reward_amount(3, 500, 6), Ok(150_000));
    assert_eq!(reward_amount(1, 1, 0), Ok(0));
    assert_eq!(reward_amount(10_000, 1, 0), Ok(1));
    assert_eq!(reward_amount(0, 500, 9), Ok(0));
    assert_eq!(reward_amount(7, 10_000, 9), Ok(7_000_000_000));
}

#[test]
fn reward_amount_reads_negative_days_unsigned() {
    // -1 days reads as u64::MAX days
    assert_eq!(reward_amount(-1, 1, 0), Ok(u64::MAX / 10_000));
    assert_eq!(reward_amount(-1, 2, 0), Err(ErrorCode::InvalidRewardsBps));
}

#[test]
fn reward_amount_overflow_is_refused() {
    assert_eq!(reward_amount(i64::MAX, 3, 0), Err(ErrorCode::InvalidRewardsBps));
    assert_eq!(reward_amount(10_000_000, 10_000, 9), Err(ErrorCode::InvalidRewardsBps));
    assert_eq!(reward_amount(1_000_000, 10_000, 9), Ok(1_000_000_000_000_000));
}

#[test]
fn reward_power_overflow_only_past_nineteen_decimals() {
    assert!(!reward_power_overflow(3, 500, 19));
    assert!(reward_power_overflow(3, 500, 20));
    assert!(!reward_power_overflow(-1, 2, 20));
    assert_eq!(reward_amount(-1, 2, 20), Err(ErrorCode::InvalidRewardsBps));
    assert_eq!(reward_amount(0, 500, 19), Ok(0));
}

// ---- collection count ----

#[test]
fn count_starts_at_one_on_a_bare_collection() {
    let w = update_collection_staked_count(&None, 1).unwrap();
    assert_eq!(pairs(&w.attribute_list), owned(&[("staked_count", "1")]));
    assert!(w.add_plugin);
}

#[test]
fn count_moves_and_keeps_other_attributes() {
    let fetched = Some(vec![attr("name", "x"), attr("staked_count", "41"), attr("tier", "gold")]);
    let w = update_collection_staked_count(&fetched, 1).unwrap();
    assert_eq!(
        pairs(&w.attribute_list),
        owned(&[("name", "x"), ("tier", "gold"), ("staked_count", "42")])
    );
    assert!(!w.add_plugin);
    let w = update_collection_staked_count(&fetched, -1).unwrap();
    assert_eq!(
        pairs(&w.attribute_list),
        owned(&[("name", "x"), ("tier", "gold"), ("staked_count", "40")])
    );
}

#[test]
fn count_missing_in_existing_plugin_adds_plugin() {
    let fetched = Some(vec![attr("name", "x")]);
    let w = update_collection_staked_count(&fetched, 1).unwrap();
    assert_eq!(pairs(&w.attribute_list), owned(&[("name", "x"), ("staked_count", "1")]));
    assert!(w.add_plugin);
}

#[test]
fn count_uses_last_entry() {
    let fetched = Some(vec![attr("staked_count", "3"), attr("staked_count", "9")]);
    let w = update_collection_staked_count(&fetched, 1).unwrap();
    assert_eq!(pairs(&w.attribute_list), owned(&[("staked_count", "10")]));
}

#[test]
fn count_errors() {
    let zero = Some(vec![attr("staked_count", "0")]);
    assert_eq!(update_collection_staked_count(&zero, -1).unwrap_err(), ErrorCode::InvalidStakedCount);
    assert_eq!(update_collection_staked_count(&None, -1).unwrap_err(), ErrorCode::InvalidStakedCount);
    let bad = Some(vec![attr("staked_count", "-3")]);
    assert_eq!(update_collection_staked_count(&bad, 1).unwrap_err(), ErrorCode::InvalidStakedCount);
    let max = Some(vec![attr("staked_count", "18446744073709551615")]);
    assert_eq!(update_collection_staked_count(&max, 1).unwrap_err(), ErrorCode::InvalidStakedCount);
    let w = update_collection_staked_count(&max, -1).unwrap();
    assert_eq!(pairs(&w.attribute_list), owned(&[("staked_count", "18446744073709551614")]));
}

#[test]
fn count_round_trip_after_stake_and_unstake() {
    let fetched = Some(vec![attr("staked_count", "7"), attr("name", "x")]);
    let up = update_collection_staked_count(&fetched, 1).unwrap();
    let down = update_collection_staked_count(&Some(up.attribute_list), -1).unwrap();
    assert_eq!(pairs(&down.attribute_list), owned(&[("name", "x"), ("staked_count", "7")]));
    assert!(!down.add_plugin);
}

// ---- stake ----

#[test]
fn stake_retains_other_attributes() {
    let fetched = Some(vec![
        attr("name", "x"),
        attr("staked", "false"),
        attr("staked_at", "0"),
        attr("last_claimed", "0"),
        attr("tier", "gold"),
    ]);
    let kept = stake::retained_attributes(&fetched).unwrap();
    assert_eq!(pairs(&kept), owned(&[("name", "x"), ("tier", "gold")]));
    assert_eq!(stake::retained_attributes(&None).unwrap(), vec![]);
}

#[test]
fn stake_refuses_staked_asset() {
    for value in ["true", "", "yes", "FALSE"] {
        let fetched = Some(vec![attr("name", "x"), attr("staked", value)]);
        assert_eq!(stake::retained_attributes(&fetched), Err(ErrorCode::AlreadyStaked));
    }
}

#[test]
fn stake_writes_the_staking_record() {
    let kept = vec![attr("name", "x")];
    let w = stake::handler(kept, true, T0);
    assert_eq!(
        pairs(&w.attribute_list),
        owned(&[
            ("name", "x"),
            ("staked", "true"),
            ("staked_at", "1700000000"),
            ("last_claimed", "1700000000"),
        ])
    );
    assert!(!w.add_plugin);
    let w = stake::handler(vec![], false, -5);
    assert_eq!(
        pairs(&w.attribute_list),
        owned(&[("staked", "true"), ("staked_at", "-5"), ("last_claimed", "-5")])
    );
    assert!(w.add_plugin);
}

// ---- unstake ----

fn staked_list(staked_at: &str, last_claimed: &str) -> Vec<Attribute> {
    vec![
        attr("name", "x"),
        attr("staked", "true"),
        attr("staked_at", staked_at),
        attr("last_claimed", last_claimed),
    ]
}

#[test]
fn unstake_removes_the_record() {
    let list = staked_list("1700000000", "1700086400");
    let plan = unstake::handler(&list, T0 + 10 * DAY, 7).unwrap();
    assert_eq!(
        pairs(&plan.attribute_list),
        owned(&[("name", "x")])
    );
    assert_eq!(plan.staked_timestamp, T0);
    assert_eq!(plan.claimed_timestamp, T0 + DAY);
}

#[test]
fn unstake_waits_for_the_freeze_period() {
    let list = staked_list("1700000000", "1700000000");
    assert_eq!(
        unstake::handler(&list, T0 + 7 * DAY - 1, 7).unwrap_err(),
        ErrorCode::FreezePeriodNotElapsed
    );
    assert!(unstake::handler(&list, T0 + 7 * DAY, 7).is_ok());
}

#[test]
fn unstake_refuses_unstaked_asset() {
    let list = vec![attr("staked", "false"), attr("staked_at", "0"), attr("last_claimed", "0")];
    assert_eq!(unstake::handler(&list, T0, 0).unwrap_err(), ErrorCode::AssetNotStaked);
    let no_flag = vec![attr("staked_at", "1700000000")];
    assert_eq!(unstake::handler(&no_flag, T0, 0).unwrap_err(), ErrorCode::AssetNotStaked);
    let no_time = vec![attr("staked", "true")];
    assert_eq!(unstake::handler(&no_time, T0, 0).unwrap_err(), ErrorCode::AssetNotStaked);
    assert_eq!(unstake::handler(&vec![], T0, 0).unwrap_err(), ErrorCode::AssetNotStaked);
}

#[test]
fn unstake_refuses_unreadable_timestamps() {
    let list = staked_list("soon", "1700000000");
    assert_eq!(unstake::handler(&list, T0, 0).unwrap_err(), ErrorCode::InvalidTimestamp);
    let list = staked_list("1700000000", "later");
    assert_eq!(unstake::handler(&list, T0, 0).unwrap_err(), ErrorCode::InvalidTimestamp);
    let list = staked_list("-9223372036854775808", "0");
    assert_eq!(unstake::handler(&list, 1, 0).unwrap_err(), ErrorCode::InvalidTimestamp);
}

#[test]
fn unstake_reports_first_failing_attribute() {
    // the freeze check on staked_at comes before the unreadable last_claimed
    let list = vec![
        attr("staked_at", "1700000000"),
        attr("last_claimed", "bad"),
        attr("staked", "true"),
    ];
    assert_eq!(unstake::handler(&list, T0, 1).unwrap_err(), ErrorCode::FreezePeriodNotElapsed);
    // the staked flag comes first here
    let list = vec![attr("staked", "no"), attr("staked_at", "bad")];
    assert_eq!(unstake::handler(&list, T0, 1).unwrap_err(), ErrorCode::AssetNotStaked);
}

// ---- across instructions ----

#[test]
fn stake_then_unstake_gives_back_the_asset() {
    let fetched = Some(vec![attr("tier", "gold"), attr("staked", "false")]);
    let kept = stake::retained_attributes(&fetched).unwrap();
    let staked = stake::handler(kept, true, T0);
    let plan = unstake::handler(&staked.attribute_list, T0 + 3 * DAY + 10, 2).unwrap();
    assert_eq!(
        pairs(&plan.attribute_list),
        owned(&[("tier", "gold")])
    );
    let start = reward_start_timestamp(plan.staked_timestamp, plan.claimed_timestamp);
    assert_eq!(start, T0);
    let days = reward_days(T0 + 3 * DAY + 10, start).unwrap();
    assert_eq!(days, 3);
    assert_eq!(reward_amount(days, 2500, 6), Ok(750_000));
}

#[test]
fn staked_asset_cannot_be_staked_twice() {
    let staked = stake::handler(vec![attr("tier", "gold")], true, T0);
    assert_eq!(
        stake::retained_attributes(&Some(staked.attribute_list)),
        Err(ErrorCode::AlreadyStaked)
    );
}

#[test]
fn unstaked_asset_can_be_staked_again() {
    let staked = stake::handler(vec![attr("tier", "gold")], false, T0);
    let plan = unstake::handler(&staked.attribute_list, T0 + DAY, 1).unwrap();
    let kept = stake::retained_attributes(&Some(plan.attribute_list)).unwrap();
    assert_eq!(pairs(&kept), owned(&[("tier", "gold")]));
}

#[test]
fn attribute_clone_keeps_key_and_value() {
    let a = attr("k", "v");
    let b = a.clone();
    assert_eq!(a, b);
    let c = Attribute::new("staked", "true".to_string());
    assert_eq!(c, attr("staked", "true"));
}

#[test]
fn unstake_needs_an_attributes_plugin() {
    assert_eq!(unstake::staked_attributes(None), Err(ErrorCode::AssetNotStaked));
    let list = vec![attr("staked", "true")];
    assert_eq!(unstake::staked_attributes(Some(list)), Ok(vec![attr("staked", "true")]));
}

#[test]
fn claiming_in_between_never_pays_a_day_twice() {
    let staked = T0;
    let claimed = T0 + DAY + 50_000;
    let now = T0 + 3 * DAY + 40_000;
    let before = reward_days(claimed, staked).unwrap();
    let after = reward_days(now, claimed).unwrap();
    let whole = reward_days(now, staked).unwrap();
    assert_eq!((before, after, whole), (1, 1, 3));
    assert!(before + after <= whole && whole <= before + after + 1);
    // after a claim, the remaining rewards start at the claim
    assert_eq!(reward_start_timestamp(staked, claimed), claimed);
}

#[test]
fn unstake_keeps_attributes_in_order() {
    let list = vec![
        attr("a", "1"),
        attr("staked", "true"),
        attr("b", "2"),
        attr("staked_at", "1700000000"),
        attr("c", "3"),
    ];
    let plan = unstake::handler(&list, T0 + DAY, 1).unwrap();
    assert_eq!(pairs(&plan.attribute_list), owned(&[("a", "1"), ("b", "2"), ("c", "3")]));
    assert_eq!((plan.staked_timestamp, plan.claimed_timestamp), (T0, 0));
}

#[test]
fn unstake_returns_the_original_attributes() {
    let original = vec![attr("tier", "gold"), attr("name", "x")];
    let kept = stake::retained_attributes(&Some(original.clone())).unwrap();
    let staked = stake::handler(kept, true, T0);
    let plan = unstake::handler(&staked.attribute_list, T0 + 2 * DAY, 2).unwrap();
    assert_eq!(plan.attribute_list, original);
}

fn plan_at(staked_at: i64, last_claimed: i64) -> unstake::UnstakePlan {
    unstake::UnstakePlan {
        attribute_list: vec![],
        staked_timestamp: staked_at,
        claimed_timestamp: last_claimed,
    }
}

#[test]
fn unstake_reward_counts_from_the_last_claim() {
    // staked 10 days ago, claimed 4 days ago: 4 days at 2500 bps, 6 decimals
    let plan = plan_at(T0, T0 + 6 * DAY);
    assert_eq!(
        unstake::unstake_reward(&plan, T0 + 10 * DAY + 7, 2500, 6),
        RewardOutcome::Mint(1_000_000)
    );
    // never claimed: counted from the stake
    let plan = plan_at(T0, T0);
    assert_eq!(
        unstake::unstake_reward(&plan, T0 + 10 * DAY, 2500, 6),
        RewardOutcome::Mint(2_500_000)
    );
}

#[test]
fn unstake_reward_outcomes() {
    let plan = plan_at(T0, T0);
    assert_eq!(unstake::unstake_reward(&plan, T0 + DAY - 1, 2500, 6), RewardOutcome::Nothing);
    assert_eq!(unstake::unstake_reward(&plan, T0 + DAY, 0, 6), RewardOutcome::Nothing);
    assert_eq!(unstake::unstake_reward(&plan, T0 + DAY, 2500, 20), RewardOutcome::PowerOverflow);
    assert_eq!(
        unstake::unstake_reward(&plan, T0 + 10_000_000 * DAY, 10_000, 9),
        RewardOutcome::Refused(ErrorCode::InvalidRewardsBps)
    );
    let plan = plan_at(i64::MIN, i64::MIN);
    assert_eq!(
        unstake::unstake_reward(&plan, 1, 1, 0),
        RewardOutcome::Refused(ErrorCode::InvalidTimestamp)
    );
}

#[test]
fn two_count_moves_are_one_move_by_their_sum() {
    let fetched = Some(vec![attr("staked_count", "5"), attr("name", "x")]);
    let first = update_collection_staked_count(&fetched, 3).unwrap();
    let second = update_collection_staked_count(&Some(first.attribute_list), -2).unwrap();
    let once = update_collection_staked_count(&fetched, 1).unwrap();
    assert_eq!(pairs(&second.attribute_list), pairs(&once.attribute_list));
    assert_eq!(pairs(&second.attribute_list), owned(&[("name", "x"), ("staked_count", "6")]));
}

#[test]
fn rewards_grow_with_time() {
    let mut last = 0;
    for hours in 0..200i64 {
        let days = reward_days(T0 + hours * 3600, T0).unwrap();
        assert!(days >= last);
        last = days;
    }
    assert!(reward_amount(3, 500, 6).unwrap() <= reward_amount(4, 500, 6).unwrap());
}

fn is_staked(list: &[Attribute]) -> bool {
    list.iter().any(|a| a.key == "staked" && a.value != "false")
}

fn count_of(list: &[Attribute]) -> u64 {
    list.iter().rev().find(|a| a.key == "staked_count").map_or(0, |a| a.value.parse().unwrap())
}

#[test]
fn collection_count_tracks_staked_assets() {
    let mut assets: Vec<Vec<Attribute>> =
        vec![vec![attr("n", "0")], vec![attr("n", "1")], vec![attr("n", "2")]];
    let mut collection: Option<Vec<Attribute>> = None;
    let check = |assets: &Vec<Vec<Attribute>>, collection: &Option<Vec<Attribute>>| {
        let staked = assets.iter().filter(|a| is_staked(a)).count() as u64;
        let count = collection.as_ref().map_or(0, |c| count_of(c));
        assert_eq!(count, staked);
    };
    check(&assets, &collection);
    for (i, t) in [(0usize, T0), (2, T0 + 5)] {
        let kept = stake::retained_attributes(&Some(assets[i].clone())).unwrap();
        assets[i] = stake::handler(kept, true, t).attribute_list;
        collection =
            Some(update_collection_staked_count(&collection, 1).unwrap().attribute_list);
        check(&assets, &collection);
    }
    let plan = unstake::handler(&assets[0], T0 + 3 * DAY, 1).unwrap();
    assets[0] = plan.attribute_list;
    collection = Some(update_collection_staked_count(&collection, -1).unwrap().attribute_list);
    check(&assets, &collection);
    assert_eq!(assets[0], vec![attr("n", "0")]);
}
