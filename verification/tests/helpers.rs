use tellor::amounts::{token, unit};
use tellor::ids::{dispute_id, feed_id};
use tellor::query::{spot_price, uint_value};
use tellor::staking::{deposit_stake, deposit_stake_reported, BenchmarkError, DepositStakeStep};
use tellor::word::{u128_word, Uint256};

fn word(v: u128) -> Vec<u8> {
    let mut w = vec![0u8; 16];
    w.extend_from_slice(&v.to_be_bytes());
    w
}

fn padded(s: &[u8]) -> Vec<u8> {
    let mut w = s.to_vec();
    while w.len() % 32 != 0 {
        w.push(0);
    }
    w
}

fn hex(s: &str) -> Vec<u8> {
    (0..s.len()).step_by(2).map(|i| u8::from_str_radix(&s[i..i + 2], 16).unwrap()).collect()
}

fn be_value(bytes: &[u8]) -> (u128, u128) {
    let mut high = [0u8; 16];
    let mut low = [0u8; 16];
    high.copy_from_slice(&bytes[..16]);
    low.copy_from_slice(&bytes[16..]);
    (u128::from_be_bytes(high), u128::from_be_bytes(low))
}

#[test]
fn unit_is_ten_to_the_decimals() {
    assert_eq!(unit(0), 1);
    assert_eq!(unit(12), 1_000_000_000_000);
    assert_eq!(unit(18), 1_000_000_000_000_000_000);
    assert_eq!(unit(38), 100_000_000_000_000_000_000_000_000_000_000_000_000);
}

#[test]
fn token_is_whole_tokens_in_base_units() {
    assert_eq!(token(10, 12), 10_000_000_000_000);
    assert_eq!(token(1_000, 12), 1_000_000_000_000_000);
    assert_eq!(token(0, 18), 0);
    assert_eq!(token(18, 18), 18 * unit(18));
}

#[test]
fn token_cuts_the_unit_to_64_bits_beyond_19_decimals() {
    // 10^20 mod 2^64
    assert_eq!(token(1, 20), 7_766_279_631_452_241_920);
    assert_eq!(token(1, 19), 10_000_000_000_000_000_000);
}

#[test]
fn u128_word_is_big_endian() {
    let w = u128_word(258);
    assert_eq!(w.to_vec(), word(258));
    assert_eq!(w[30], 1);
    assert_eq!(w[31], 2);
}

#[test]
fn uint_value_is_one_big_endian_word() {
    let v = uint_value(Uint256::from_u128(4_000), 256);
    assert_eq!(v, word(4_000));
    assert_eq!(v.len(), 32);
    let price = 50 * 10u128.pow(18);
    assert_eq!(uint_value(Uint256::from_u128(price), 32), word(price));
}

#[test]
fn uint_value_of_a_256_bit_integer() {
    let v = uint_value(Uint256 { high: 1, low: 2 }, 32);
    let mut expected = vec![0u8; 32];
    expected[15] = 1;
    expected[31] = 2;
    assert_eq!(v, expected);
    let max = uint_value(Uint256 { high: u128::MAX, low: u128::MAX }, 64);
    assert_eq!(max, vec![0xffu8; 32]);
}

#[test]
fn uint_value_reads_back() {
    for value in [Uint256 { high: 0, low: 0 }, Uint256 { high: 7, low: 123_456_789 }, Uint256 { high: u128::MAX, low: 1 }] {
        let v = uint_value(value, 32);
        assert_eq!(be_value(&v), (value.high, value.low));
    }
}

#[test]
fn spot_price_query_data() {
    let data = spot_price("dot", "usd");
    let mut args = Vec::new();
    args.extend(word(0x40));
    args.extend(word(0x80));
    args.extend(word(3));
    args.extend(padded(b"dot"));
    args.extend(word(3));
    args.extend(padded(b"usd"));
    let mut expected = Vec::new();
    expected.extend(word(0x40));
    expected.extend(word(0x80));
    expected.extend(word(9));
    expected.extend(padded(b"SpotPrice"));
    expected.extend(word(args.len() as u128));
    expected.extend(args);
    assert_eq!(data.len(), 352);
    assert_eq!(data, expected);
}

#[test]
fn spot_price_differs_by_pair() {
    assert_ne!(spot_price("dot", "usd"), spot_price("eth", "usd"));
    assert_eq!(spot_price("dot", "usd"), spot_price("dot", "usd"));
}

#[test]
fn dispute_id_is_keccak_of_the_encoded_dispute() {
    let id = dispute_id(3_000, &[0x11; 32], 1_700_000_000);
    assert_eq!(id.to_vec(), hex("246a3c23e06b596a27a684f425a2b5e969fb3b82c6a1119f8a06fcf224693de3"));
}

#[test]
fn dispute_ids_of_distinct_disputes_differ() {
    let a = dispute_id(3_000, &[0x11; 32], 1_700_000_000);
    assert_ne!(a, dispute_id(3_000, &[0x11; 32], 1_700_000_001));
    assert_ne!(a, dispute_id(3_001, &[0x11; 32], 1_700_000_000));
    assert_ne!(a, dispute_id(3_000, &[0x12; 32], 1_700_000_000));
    assert_eq!(a, dispute_id(3_000, &[0x11; 32], 1_700_000_000));
}

#[test]
fn feed_id_is_keccak_of_the_encoded_feed() {
    let id = feed_id(&[0x22; 32], 10_000_000_000_000, 1_700_000_000, 700, 60, 0, 0);
    assert_eq!(id.to_vec(), hex("641895287384bdfa8bea2c0b2fea9ea1c3938a41de44d945f63047ca51d4fe66"));
}

#[test]
fn feed_ids_of_distinct_feeds_differ() {
    let a = feed_id(&[0x22; 32], 10_000_000_000_000, 1_700_000_000, 700, 60, 0, 0);
    assert_ne!(a, feed_id(&[0x22; 32], 10_000_000_000_000, 1_700_000_000, 600, 60, 0, 0));
    assert_ne!(a, feed_id(&[0x22; 32], 10_000_000_000_000, 1_700_000_000, 700, 60, 1, 0));
    assert_ne!(a, feed_id(&[0x23; 32], 10_000_000_000_000, 1_700_000_000, 700, 60, 0, 0));
}

#[test]
fn deposit_stake_reports_with_the_origin_then_returns_it() {
    let step = deposit_stake::<&str, (), u32, u128, [u8; 20]>(Ok("origin"), 1, 100, [0u8; 20]);
    assert_eq!(
        step,
        DepositStakeStep::ReportStake { origin: "origin", reporter: 1, amount: 100, address: [0u8; 20] }
    );
    assert_eq!(deposit_stake_reported::<&str, ()>("origin", Ok(())), Ok("origin"));
}

#[test]
fn deposit_stake_fails_as_weightless() {
    let step = deposit_stake::<&str, (), u32, u128, [u8; 20]>(Err(()), 1, 100, [0u8; 20]);
    assert_eq!(step, DepositStakeStep::Fail(BenchmarkError::Weightless));
    assert_eq!(
        deposit_stake_reported::<&str, &str>("origin", Err("rejected")),
        Err(BenchmarkError::Weightless)
    );
}

#[test]
fn uint_values_sort_as_their_numbers() {
    let values = [
        Uint256 { high: 0, low: 0 },
        Uint256 { high: 0, low: 255 },
        Uint256 { high: 0, low: 256 },
        Uint256 { high: 0, low: u128::MAX },
        Uint256 { high: 1, low: 0 },
        Uint256 { high: u128::MAX, low: u128::MAX },
    ];
    for (i, a) in values.iter().enumerate() {
        for (j, b) in values.iter().enumerate() {
            let (wa, wb) = (uint_value(*a, 32), uint_value(*b, 32));
            assert_eq!(i < j, wa.as_slice() < wb.as_slice());
            assert_eq!(i == j, wa == wb);
        }
    }
}

#[test]
fn spot_price_length_is_whole_words() {
    assert_eq!(spot_price("dot", "usd").len(), 32 * (9 + 1 + 1));
    assert_eq!(spot_price("", "").len(), 32 * 9);
    let long = "a".repeat(33);
    assert_eq!(spot_price(&long, "usd").len(), 32 * (9 + 2 + 1));
    assert_eq!(spot_price("é", "usd").len(), 32 * (9 + 1 + 1));
}

#[test]
fn spot_price_of_swapped_pair_differs() {
    assert_ne!(spot_price("dot", "usd"), spot_price("usd", "dot"));
    assert_ne!(spot_price("do", "tusd"), spot_price("dot", "usd"));
}
