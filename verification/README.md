# anchor_core_staking

The rules of an NFT staking program for Metaplex Core assets, verified with
Verus. Staking state lives on the asset itself, in its `Attributes` plugin
(`staked`, `staked_at`, `last_claimed`), and the collection keeps a count of its
staked assets (`staked_count`).

- `src/` is the verified library: the attribute lists that staking and
  unstaking write, the checks that refuse a stake or an unstake, the reward
  arithmetic, the collection counter, and the laws that relate them
  (`src/laws.rs`).
- `app/` is the Anchor program around it: account validation, reading the
  plugins and the clock, and the calls into the MPL Core and token programs.
- `tests/` runs the library on concrete values.
