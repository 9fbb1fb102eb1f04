# tellor

Verified helpers of the Tellor oracle pallet's benchmarks, written in Verus.

- `src/word.rs`: 256-bit integers and their 32-byte big-endian words, with the round-trip laws.
- `src/abi.rs`: the ABI token type, and the trusted calls of `ethabi::encode` and of
  `sp_runtime`'s Keccak-256 hasher.
- `src/query.rs`: reported values (`uint_value`) and `SpotPrice` query data (`spot_price`).
- `src/ids.rs`: query, feed and dispute ids, with the laws that the hashed bytes determine
  what they identify.
- `src/amounts.rs`: `unit` and `token`, amounts in base units.
- `src/claims.rs`: the oldest and newest reported timestamps that tip claims name.
- `src/staking.rs`: the decisions of the stake deposit step, passing the origin, reporter, amount and address through.
- `app/lib.rs`: `trb`, which works on floating point, and the SCALE-compact form of claimed timestamps.
- `tests/`: tests with exact expected values.
