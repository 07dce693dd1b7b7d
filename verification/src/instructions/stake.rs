//! Staking an asset: it must not be staked already; its staking record is
//! written into its attribute list, next to the attributes it had.

use vstd::prelude::*;

use super::utils::{LAST_CLAIMED_ATTRIBUTE, STAKED_ATTRIBUTE, STAKED_AT_ATTRIBUTE};
use crate::attribute::{
    attributes_view, fetched_view, lemma_without_keys_push, without_keys, Attribute, PluginWrite,
};
use crate::decimal::{decimal_string, i64_to_text};
use crate::error::ErrorCode;

verus! {

/// The keys of an asset's staking record.
pub open spec fn staking_keys() -> Set<Seq<char>> {
    set![STAKED_ATTRIBUTE@, STAKED_AT_ATTRIBUTE@, LAST_CLAIMED_ATTRIBUTE@]
}

/// Some `staked` entry of `s` holds a value other than `false`: the asset
/// counts as staked.
pub open spec fn marked_staked(s: Seq<(Seq<char>, Seq<char>)>) -> bool {
    exists|i: int| 0 <= i < s.len() && #[trigger] s[i].0 == STAKED_ATTRIBUTE@ && s[i].1 != "false"@
}

/// The staking record written at `timestamp`: `staked` is `true`, and
/// `staked_at` and `last_claimed` are the timestamp in decimal.
pub open spec fn staking_record(timestamp: i64) -> Seq<(Seq<char>, Seq<char>)> {
    seq![
        (STAKED_ATTRIBUTE@, "true"@),
        (STAKED_AT_ATTRIBUTE@, decimal_string(timestamp as int)),
        (LAST_CLAIMED_ATTRIBUTE@, decimal_string(timestamp as int)),
    ]
}

/// Checks that the asset, with the attribute list as fetched (`None` where it
/// has no `Attributes` plugin), is not staked, and keeps the attributes that
/// are not part of a staking record, in their order.
pub fn retained_attributes(fetched: &Option<Vec<Attribute>>) -> (res: Result<
    Vec<Attribute>,
    ErrorCode,
>)
    ensures
        match res {
            Ok(v) => !marked_staked(fetched_view(*fetched)) && attributes_view(v@) == without_keys(
                fetched_view(*fetched),
                staking_keys(),
            ),
            Err(e) => marked_staked(fetched_view(*fetched)) && e == ErrorCode::AlreadyStaked,
        },
{
    let staked_key = STAKED_ATTRIBUTE.to_owned();
    let staked_at_key = STAKED_AT_ATTRIBUTE.to_owned();
    let last_claimed_key = LAST_CLAIMED_ATTRIBUTE.to_owned();
    let not_staked = "false".to_owned();
    let mut attributes_list: Vec<Attribute> = Vec::new();
    let ghost s = fetched_view(*fetched);

    if let Some(attributes) = fetched {
        let mut i: usize = 0;
        while i < attributes.len()
            invariant
                i <= attributes.len(),
                s == attributes_view(attributes@),
                s == fetched_view(*fetched),
                staked_key@ == STAKED_ATTRIBUTE@,
                staked_at_key@ == STAKED_AT_ATTRIBUTE@,
                last_claimed_key@ == LAST_CLAIMED_ATTRIBUTE@,
                not_staked@ == "false"@,
                attributes_view(attributes_list@) == without_keys(s.take(i as int), staking_keys()),
                !marked_staked(s.take(i as int)),
            decreases attributes.len() - i,
        {
            let attribute = &attributes[i];
            proof {
                assert(s.take(i + 1) =~= s.take(i as int).push(attribute@));
                lemma_without_keys_push(s.take(i as int), attribute@, staking_keys());
            }
            if attribute.key == staked_key {
                if !(attribute.value == not_staked) {
                    proof {
                        assert(s[i as int] == attribute@);
                    }
                    return Err(ErrorCode::AlreadyStaked);
                }
            } else {
                if !(attribute.key == staked_at_key) && !(attribute.key == last_claimed_key) {
                    let ghost before = attributes_list@;
                    attributes_list.push(attribute.clone());
                    proof {
                        assert(attributes_view(attributes_list@) =~= attributes_view(before).push(
                            attribute@,
                        ));
                    }
                }
            }
            proof {
                assert forall|j: int|
                    0 <= j < s.take(i + 1).len() && #[trigger] s.take(i + 1)[j].0
                        == STAKED_ATTRIBUTE@ implies s.take(i + 1)[j].1 == "false"@ by {
                    if j < i {
                        assert(s.take(i + 1)[j] == s.take(i as int)[j]);
                    }
                }
            }
            i += 1;
        }
        proof {
            assert(s.take(attributes.len() as int) =~= s);
        }
    } else {
        proof {
            assert(attributes_view(attributes_list@) =~= Seq::<(Seq<char>, Seq<char>)>::empty());
            assert(without_keys(s, staking_keys()) =~= s);
        }
    }
    Ok(attributes_list)
}

/// The attribute list that staking at `current_timestamp` writes: the retained
/// attributes followed by the staking record; the `Attributes` plugin is added
/// where the asset had none, and updated otherwise.
pub fn handler(retained: Vec<Attribute>, plugin_exists: bool, current_timestamp: i64) -> (res:
    PluginWrite)
    ensures
        res@ == (
            attributes_view(retained@) + staking_record(current_timestamp),
            !plugin_exists,
        ),
{
    let mut attributes_list = retained;
    attributes_list.push(Attribute::new(STAKED_ATTRIBUTE, "true".to_owned()));
    attributes_list.push(Attribute::new(STAKED_AT_ATTRIBUTE, i64_to_text(current_timestamp)));
    attributes_list.push(Attribute::new(LAST_CLAIMED_ATTRIBUTE, i64_to_text(current_timestamp)));
    proof {
        assert(attributes_view(attributes_list@) =~= attributes_view(retained@) + staking_record(
            current_timestamp,
        ));
    }
    PluginWrite { attribute_list: attributes_list, add_plugin: !plugin_exists }
}

} // verus!
