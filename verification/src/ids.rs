//! The identifiers of data feeds and disputes: Keccak-256 digests of the ABI encoding of
//! what identifies them.

use vstd::prelude::*;

use crate::abi::{
    abi_encoding, abi_values, concat_words, is_word, keccak256, keccak_256,
    lemma_words_encoding, uint_token, AbiToken, AbiValue,
};
use crate::encoder::encode;
use crate::word::{
    be_bytes, be_value, lemma_be_bytes_injective, lemma_be_bytes_len, lemma_be_value_of_be_bytes,
    lemma_pow256_32,
};

verus! {

/// The id of a query: the Keccak-256 digest of its query data.
pub fn query_id(query_data: &Vec<u8>) -> (id: [u8; 32])
    ensures
        id@ == keccak_256(query_data@),
{
    keccak256(query_data)
}

/// The values whose encoding a dispute id hashes.
pub open spec fn dispute_id_tokens(para_id: u32, query_id: Seq<u8>, timestamp: u64) -> Seq<
    AbiValue,
> {
    seq![
        AbiValue::Uint(be_bytes(para_id as nat, 32)),
        AbiValue::FixedBytes(query_id),
        AbiValue::Uint(be_bytes(timestamp as nat, 32)),
    ]
}

/// The bytes that a dispute id hashes: the parachain id, the query id and the timestamp,
/// each as one 32-byte word.
pub open spec fn dispute_id_preimage(para_id: u32, query_id: Seq<u8>, timestamp: u64) -> Seq<u8> {
    be_bytes(para_id as nat, 32) + query_id + be_bytes(timestamp as nat, 32)
}

/// The id of the dispute over the value reported for `query_id` at `timestamp` on the
/// parachain `para_id`: the Keccak-256 digest of the ABI encoding of
/// `(uint para_id, bytes32 query_id, uint timestamp)`.
pub fn dispute_id(para_id: u32, query_id: &[u8; 32], timestamp: u64) -> (id: [u8; 32])
    ensures
        dispute_id_preimage(para_id, query_id@, timestamp) == abi_encoding(
            dispute_id_tokens(para_id, query_id@, timestamp),
        ),
        id@ == keccak_256(dispute_id_preimage(para_id, query_id@, timestamp)),
{
    let mut tokens: Vec<AbiToken> = Vec::new();
    tokens.push(uint_token(para_id as u128));
    tokens.push(AbiToken::FixedBytes(vstd::slice::slice_to_vec(query_id.as_slice())));
    tokens.push(uint_token(timestamp as u128));
    let ghost vs = dispute_id_tokens(para_id, query_id@, timestamp);
    proof {
        assert(abi_values(tokens@) =~= vs);
        lemma_be_bytes_len(para_id as nat, 32);
        lemma_be_bytes_len(timestamp as nat, 32);
        assert(query_id@.len() == 32);
        assert forall|i: int| 0 <= i < vs.len() implies is_word(#[trigger] vs[i]) by {}
        lemma_words_encoding(vs);
        reveal_with_fuel(concat_words, 4);
        assert(concat_words(vs) =~= dispute_id_preimage(para_id, query_id@, timestamp));
    }
    let encoded = encode(tokens);
    keccak256(&encoded)
}

/// Law: the bytes that a dispute id hashes determine the parachain id, the query id and the
/// timestamp; distinct disputes hash distinct bytes.
pub proof fn lemma_dispute_id_preimage_injective(
    para_id1: u32,
    query_id1: Seq<u8>,
    timestamp1: u64,
    para_id2: u32,
    query_id2: Seq<u8>,
    timestamp2: u64,
)
    requires
        query_id1.len() == 32,
        query_id2.len() == 32,
        dispute_id_preimage(para_id1, query_id1, timestamp1) == dispute_id_preimage(
            para_id2,
            query_id2,
            timestamp2,
        ),
    ensures
        para_id1 == para_id2,
        query_id1 == query_id2,
        timestamp1 == timestamp2,
{
    let a = dispute_id_preimage(para_id1, query_id1, timestamp1);
    let b = dispute_id_preimage(para_id2, query_id2, timestamp2);
    lemma_be_bytes_len(para_id1 as nat, 32);
    lemma_be_bytes_len(para_id2 as nat, 32);
    lemma_be_bytes_len(timestamp1 as nat, 32);
    lemma_be_bytes_len(timestamp2 as nat, 32);
    assert(a.subrange(0, 32) =~= be_bytes(para_id1 as nat, 32));
    assert(b.subrange(0, 32) =~= be_bytes(para_id2 as nat, 32));
    assert(a.subrange(32, 64) =~= query_id1);
    assert(b.subrange(32, 64) =~= query_id2);
    assert(a.subrange(64, 96) =~= be_bytes(timestamp1 as nat, 32));
    assert(b.subrange(64, 96) =~= be_bytes(timestamp2 as nat, 32));
    lemma_pow256_32();
    lemma_be_bytes_injective(para_id1 as nat, para_id2 as nat, 32);
    lemma_be_bytes_injective(timestamp1 as nat, timestamp2 as nat, 32);
}

/// The values whose encoding a feed id hashes.
pub open spec fn feed_id_tokens(
    query_id: Seq<u8>,
    reward: u128,
    start_time: u64,
    interval: u64,
    window: u64,
    price_threshold: u16,
    reward_increase_per_second: u128,
) -> Seq<AbiValue> {
    seq![
        AbiValue::FixedBytes(query_id),
        AbiValue::Uint(be_bytes(reward as nat, 32)),
        AbiValue::Uint(be_bytes(start_time as nat, 32)),
        AbiValue::Uint(be_bytes(interval as nat, 32)),
        AbiValue::Uint(be_bytes(window as nat, 32)),
        AbiValue::Uint(be_bytes(price_threshold as nat, 32)),
        AbiValue::Uint(be_bytes(reward_increase_per_second as nat, 32)),
    ]
}

/// The bytes that a feed id hashes: the query id and then each parameter of the feed as one
/// 32-byte word.
pub open spec fn feed_id_preimage(
    query_id: Seq<u8>,
    reward: u128,
    start_time: u64,
    interval: u64,
    window: u64,
    price_threshold: u16,
    reward_increase_per_second: u128,
) -> Seq<u8> {
    query_id + be_bytes(reward as nat, 32) + be_bytes(start_time as nat, 32) + be_bytes(
        interval as nat,
        32,
    ) + be_bytes(window as nat, 32) + be_bytes(price_threshold as nat, 32) + be_bytes(
        reward_increase_per_second as nat,
        32,
    )
}

/// The id of the data feed that `setup_data_feed` creates with these parameters: the
/// Keccak-256 digest of the ABI encoding of `(bytes32 query_id, uint reward, uint start_time,
/// uint interval, uint window, uint price_threshold, uint reward_increase_per_second)`.
pub fn feed_id(
    query_id: &[u8; 32],
    reward: u128,
    start_time: u64,
    interval: u64,
    window: u64,
    price_threshold: u16,
    reward_increase_per_second: u128,
) -> (id: [u8; 32])
    ensures
        feed_id_preimage(
            query_id@,
            reward,
            start_time,
            interval,
            window,
            price_threshold,
            reward_increase_per_second,
        ) == abi_encoding(
            feed_id_tokens(
                query_id@,
                reward,
                start_time,
                interval,
                window,
                price_threshold,
                reward_increase_per_second,
            ),
        ),
        id@ == keccak_256(
            feed_id_preimage(
                query_id@,
                reward,
                start_time,
                interval,
                window,
                price_threshold,
                reward_increase_per_second,
            ),
        ),
{
    let mut tokens: Vec<AbiToken> = Vec::new();
    tokens.push(AbiToken::FixedBytes(vstd::slice::slice_to_vec(query_id.as_slice())));
    tokens.push(uint_token(reward));
    tokens.push(uint_token(start_time as u128));
    tokens.push(uint_token(interval as u128));
    tokens.push(uint_token(window as u128));
    tokens.push(uint_token(price_threshold as u128));
    tokens.push(uint_token(reward_increase_per_second));
    let ghost vs = feed_id_tokens(
        query_id@,
        reward,
        start_time,
        interval,
        window,
        price_threshold,
        reward_increase_per_second,
    );
    proof {
        assert(abi_values(tokens@) =~= vs);
        lemma_be_bytes_len(reward as nat, 32);
        lemma_be_bytes_len(start_time as nat, 32);
        lemma_be_bytes_len(interval as nat, 32);
        lemma_be_bytes_len(window as nat, 32);
        lemma_be_bytes_len(price_threshold as nat, 32);
        lemma_be_bytes_len(reward_increase_per_second as nat, 32);
        assert(query_id@.len() == 32);
        assert forall|i: int| 0 <= i < vs.len() implies is_word(#[trigger] vs[i]) by {}
        lemma_words_encoding(vs);
        reveal_with_fuel(concat_words, 8);
        assert(concat_words(vs) =~= feed_id_preimage(
            query_id@,
            reward,
            start_time,
            interval,
            window,
            price_threshold,
            reward_increase_per_second,
        ));
    }
    let encoded = encode(tokens);
    keccak256(&encoded)
}

} // verus!

verus! {

/// Law: the bytes that a feed id hashes determine the query id and every parameter of the
/// feed; feeds that differ in any of them hash distinct bytes.
pub proof fn lemma_feed_id_preimage_injective(
    query_id1: Seq<u8>,
    reward1: u128,
    start_time1: u64,
    interval1: u64,
    window1: u64,
    price_threshold1: u16,
    reward_increase_per_second1: u128,
    query_id2: Seq<u8>,
    reward2: u128,
    start_time2: u64,
    interval2: u64,
    window2: u64,
    price_threshold2: u16,
    reward_increase_per_second2: u128,
)
    requires
        query_id1.len() == 32,
        query_id2.len() == 32,
        feed_id_preimage(
            query_id1,
            reward1,
            start_time1,
            interval1,
            window1,
            price_threshold1,
            reward_increase_per_second1,
        ) == feed_id_preimage(
            query_id2,
            reward2,
            start_time2,
            interval2,
            window2,
            price_threshold2,
            reward_increase_per_second2,
        ),
    ensures
        query_id1 == query_id2,
        reward1 == reward2,
        start_time1 == start_time2,
        interval1 == interval2,
        window1 == window2,
        price_threshold1 == price_threshold2,
        reward_increase_per_second1 == reward_increase_per_second2,
{
    let a = feed_id_preimage(
        query_id1,
        reward1,
        start_time1,
        interval1,
        window1,
        price_threshold1,
        reward_increase_per_second1,
    );
    let b = feed_id_preimage(
        query_id2,
        reward2,
        start_time2,
        interval2,
        window2,
        price_threshold2,
        reward_increase_per_second2,
    );
    let ws1 = seq![
        reward1 as nat,
        start_time1 as nat,
        interval1 as nat,
        window1 as nat,
        price_threshold1 as nat,
        reward_increase_per_second1 as nat,
    ];
    let ws2 = seq![
        reward2 as nat,
        start_time2 as nat,
        interval2 as nat,
        window2 as nat,
        price_threshold2 as nat,
        reward_increase_per_second2 as nat,
    ];
    lemma_pow256_32();
    assert(a.subrange(0, 32) =~= query_id1);
    assert(b.subrange(0, 32) =~= query_id2);
    assert forall|k: int| 0 <= k < 6 implies ws1[k] == ws2[k] by {
        lemma_be_bytes_len(ws1[0], 32);
        lemma_be_bytes_len(ws1[1], 32);
        lemma_be_bytes_len(ws1[2], 32);
        lemma_be_bytes_len(ws1[3], 32);
        lemma_be_bytes_len(ws1[4], 32);
        lemma_be_bytes_len(ws1[5], 32);
        lemma_be_bytes_len(ws2[0], 32);
        lemma_be_bytes_len(ws2[1], 32);
        lemma_be_bytes_len(ws2[2], 32);
        lemma_be_bytes_len(ws2[3], 32);
        lemma_be_bytes_len(ws2[4], 32);
        lemma_be_bytes_len(ws2[5], 32);
        let lo = 32 + 32 * k;
        assert(a.subrange(lo, lo + 32) =~= be_bytes(ws1[k], 32));
        assert(b.subrange(lo, lo + 32) =~= be_bytes(ws2[k], 32));
        lemma_be_bytes_injective(ws1[k], ws2[k], 32);
    }
    assert(ws1[0] == ws2[0]);
    assert(ws1[1] == ws2[1]);
    assert(ws1[2] == ws2[2]);
    assert(ws1[3] == ws2[3]);
    assert(ws1[4] == ws2[4]);
    assert(ws1[5] == ws2[5]);
}

} // verus!

verus! {

/// Law: the ABI encoding of a dispute `(uint para_id, bytes32 query_id, uint timestamp)` is 96
/// bytes: the first word reads as the parachain id, the query id's bytes follow in order at
/// bytes 32 to 63, and the last word reads as the timestamp.
pub proof fn lemma_dispute_encoding_layout(para_id: u32, query_id: Seq<u8>, timestamp: u64)
    requires
        query_id.len() == 32,
    ensures
        ({
            let e = abi_encoding(dispute_id_tokens(para_id, query_id, timestamp));
            &&& e.len() == 96
            &&& be_value(e.subrange(0, 32)) == para_id
            &&& forall|i: int| 0 <= i < 32 ==> e[32 + i] == query_id[i]
            &&& be_value(e.subrange(64, 96)) == timestamp
        }),
{
    let vs = dispute_id_tokens(para_id, query_id, timestamp);
    lemma_be_bytes_len(para_id as nat, 32);
    lemma_be_bytes_len(timestamp as nat, 32);
    assert forall|i: int| 0 <= i < vs.len() implies is_word(#[trigger] vs[i]) by {}
    lemma_words_encoding(vs);
    reveal_with_fuel(concat_words, 4);
    let e = abi_encoding(vs);
    assert(e =~= be_bytes(para_id as nat, 32) + query_id + be_bytes(timestamp as nat, 32));
    assert(e.subrange(0, 32) =~= be_bytes(para_id as nat, 32));
    assert(e.subrange(64, 96) =~= be_bytes(timestamp as nat, 32));
    lemma_pow256_32();
    lemma_be_value_of_be_bytes(para_id as nat, 32);
    lemma_be_value_of_be_bytes(timestamp as nat, 32);
}

/// Law: the ABI encoding of a feed `(bytes32 query_id, uint reward, uint start_time,
/// uint interval, uint window, uint price_threshold, uint reward_increase_per_second)` is 224
/// bytes: the query id's bytes in order at bytes 0 to 31, then one word per parameter, each
/// reading as the parameter.
pub proof fn lemma_feed_encoding_layout(
    query_id: Seq<u8>,
    reward: u128,
    start_time: u64,
    interval: u64,
    window: u64,
    price_threshold: u16,
    reward_increase_per_second: u128,
)
    requires
        query_id.len() == 32,
    ensures
        ({
            let e = abi_encoding(
                feed_id_tokens(
                    query_id,
                    reward,
                    start_time,
                    interval,
                    window,
                    price_threshold,
                    reward_increase_per_second,
                ),
            );
            &&& e.len() == 224
            &&& forall|i: int| 0 <= i < 32 ==> e[i] == query_id[i]
            &&& be_value(e.subrange(32, 64)) == reward
            &&& be_value(e.subrange(64, 96)) == start_time
            &&& be_value(e.subrange(96, 128)) == interval
            &&& be_value(e.subrange(128, 160)) == window
            &&& be_value(e.subrange(160, 192)) == price_threshold
            &&& be_value(e.subrange(192, 224)) == reward_increase_per_second
        }),
{
    let vs = feed_id_tokens(
        query_id,
        reward,
        start_time,
        interval,
        window,
        price_threshold,
        reward_increase_per_second,
    );
    let ws = seq![
        reward as nat,
        start_time as nat,
        interval as nat,
        window as nat,
        price_threshold as nat,
        reward_increase_per_second as nat,
    ];
    lemma_be_bytes_len(ws[0], 32);
    lemma_be_bytes_len(ws[1], 32);
    lemma_be_bytes_len(ws[2], 32);
    lemma_be_bytes_len(ws[3], 32);
    lemma_be_bytes_len(ws[4], 32);
    lemma_be_bytes_len(ws[5], 32);
    assert forall|i: int| 0 <= i < vs.len() implies is_word(#[trigger] vs[i]) by {}
    lemma_words_encoding(vs);
    reveal_with_fuel(concat_words, 8);
    let e = abi_encoding(vs);
    assert(e =~= feed_id_preimage(
        query_id,
        reward,
        start_time,
        interval,
        window,
        price_threshold,
        reward_increase_per_second,
    ));
    lemma_pow256_32();
    assert forall|k: int| 0 <= k < 6 implies be_value(#[trigger] e.subrange(32 + 32 * k, 64 + 32 * k))
        == ws[k] by {
        assert(e.subrange(32 + 32 * k, 64 + 32 * k) =~= be_bytes(ws[k], 32));
        lemma_be_value_of_be_bytes(ws[k], 32);
    }
    assert(be_value(e.subrange(32 + 32 * 0int, 64 + 32 * 0int)) == ws[0]);
    assert(be_value(e.subrange(32 + 32 * 1int, 64 + 32 * 1int)) == ws[1]);
    assert(be_value(e.subrange(32 + 32 * 2int, 64 + 32 * 2int)) == ws[2]);
    assert(be_value(e.subrange(32 + 32 * 3int, 64 + 32 * 3int)) == ws[3]);
    assert(be_value(e.subrange(32 + 32 * 4int, 64 + 32 * 4int)) == ws[4]);
    assert(be_value(e.subrange(32 + 32 * 5int, 64 + 32 * 5int)) == ws[5]);
}

} // verus!
