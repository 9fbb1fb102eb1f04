//! ABI-encoded query data and reported values.

use vstd::prelude::*;

use crate::abi::{
    abi_encoding, abi_values, abi_word_count, concat_words, dynamic_bytes, is_word,
    lemma_encoding_len, lemma_padded, lemma_token_values, lemma_two_dynamic_injective,
    lemma_words_encoding, padded_words, uints_are_words, value_words, AbiToken, AbiValue,
};
use crate::encoder::encode;
use crate::word::{
    be_bytes, be_value, bytes_before, lemma_be_bytes_injective, lemma_be_bytes_len,
    lemma_be_bytes_order, lemma_be_value_of_be_bytes, lemma_uint256_value_bound, Uint256,
};

verus! {

/// The value that a reporter submits for `value`: the ABI encoding of `(uint value)`, which
/// is its 32-byte big-endian word. The encoding must fit the bound `max_value_length` of
/// reported values.
pub fn uint_value(value: Uint256, max_value_length: u32) -> (encoded: Vec<u8>)
    requires
        32 <= max_value_length,
    ensures
        encoded@ == abi_encoding(seq![AbiValue::Uint(be_bytes(value.value(), 32))]),
        encoded@ == be_bytes(value.value(), 32),
        encoded@.len() <= max_value_length,
{
    let mut tokens: Vec<AbiToken> = Vec::new();
    tokens.push(AbiToken::Uint(value.to_be_word()));
    let ghost vs = seq![AbiValue::Uint(be_bytes(value.value(), 32))];
    proof {
        assert(abi_values(tokens@) =~= vs);
        lemma_be_bytes_len(value.value(), 32);
        assert(is_word(vs[0]));
        lemma_words_encoding(vs);
        reveal_with_fuel(concat_words, 2);
        assert(concat_words(vs) =~= be_bytes(value.value(), 32));
    }
    encode(tokens)
}

/// Law: the value that [`uint_value`] submits reads back, as a big-endian number, as the
/// integer it encodes.
pub proof fn lemma_uint_value_reads_back(value: Uint256)
    ensures
        be_value(be_bytes(value.value(), 32)) == value.value(),
        be_bytes(value.value(), 32).len() == 32,
{
    lemma_uint256_value_bound(value);
    lemma_be_value_of_be_bytes(value.value(), 32);
    lemma_be_bytes_len(value.value(), 32);
}

/// Law: the values that [`uint_value`] submits are in byte order exactly when the integers
/// are in numeric order, and equal exactly when the integers are equal.
pub proof fn lemma_uint_value_order(v1: Uint256, v2: Uint256)
    ensures
        v1.value() < v2.value() <==> bytes_before(
            be_bytes(v1.value(), 32),
            be_bytes(v2.value(), 32),
        ),
        be_bytes(v1.value(), 32) == be_bytes(v2.value(), 32) <==> v1.value() == v2.value(),
{
    lemma_uint256_value_bound(v1);
    lemma_uint256_value_bound(v2);
    lemma_be_bytes_order(v1.value(), v2.value(), 32);
    if be_bytes(v1.value(), 32) == be_bytes(v2.value(), 32) {
        lemma_be_bytes_injective(v1.value(), v2.value(), 32);
    }
}

/// The arguments of a `SpotPrice` query: the asset and the currency.
pub open spec fn spot_price_args(asset: Seq<char>, currency: Seq<char>) -> Seq<AbiValue> {
    seq![AbiValue::Text(asset), AbiValue::Text(currency)]
}

/// A `SpotPrice` query: the query type's name and the encoding of its arguments.
pub open spec fn spot_price_query(asset: Seq<char>, currency: Seq<char>) -> Seq<AbiValue> {
    seq![
        AbiValue::Text("SpotPrice"@),
        AbiValue::Bytes(abi_encoding(spot_price_args(asset, currency))),
    ]
}

/// The query data of the price of `asset` in `currency`: the ABI encoding of
/// `(string "SpotPrice", bytes args)`, where `args` is the ABI encoding of
/// `(string asset, string currency)`. The query data must fit the size that the encoder's
/// offsets (`u32`) can address.
pub fn spot_price(asset: &str, currency: &str) -> (query_data: Vec<u8>)
    requires
        32 * (abi_word_count(spot_price_args(asset@, currency@)) + 5) <= u32::MAX,
    ensures
        query_data@ == abi_encoding(spot_price_query(asset@, currency@)),
        query_data@.len() == 32 * (abi_word_count(spot_price_args(asset@, currency@)) + 5),
{
    let mut args: Vec<AbiToken> = Vec::new();
    args.push(AbiToken::Text(String::from_str(asset)));
    args.push(AbiToken::Text(String::from_str(currency)));
    let ghost inner = spot_price_args(asset@, currency@);
    let ghost k = abi_word_count(inner);
    proof {
        assert(abi_values(args@) =~= inner);
        lemma_token_values(args@);
    }
    let encoded_args = encode(args);
    proof {
        lemma_encoding_len(inner);
    }
    let mut query: Vec<AbiToken> = Vec::new();
    query.push(AbiToken::Text(String::from_str("SpotPrice")));
    query.push(AbiToken::Bytes(encoded_args));
    let ghost outer = spot_price_query(asset@, currency@);
    proof {
        reveal_strlit("SpotPrice");
        assert(abi_values(query@) =~= outer);
        let name = "SpotPrice"@;
        assert(vstd::utf8::is_ascii_chars(name));
        vstd::utf8::is_ascii_chars_encode_utf8(name);
        assert(padded_words(9) == 1);
        assert(value_words(outer[0]) == 3);
        vstd::arithmetic::div_mod::lemma_fundamental_div_mod_converse(
            (32 * k + 31) as int,
            32,
            k as int,
            31,
        );
        assert(value_words(outer[1]) == 2 + k);
        reveal_with_fuel(abi_word_count, 3);
        assert(abi_word_count(outer) == 5 + k);
        lemma_token_values(query@);
        lemma_encoding_len(outer);
    }
    encode(query)
}

/// The bytes of each string of a `SpotPrice` query take up no more room than the words of
/// the query's arguments.
proof fn lemma_spot_price_args_sizes(asset: Seq<char>, currency: Seq<char>)
    ensures
        uints_are_words(spot_price_args(asset, currency)),
        vstd::utf8::encode_utf8(asset).len() <= 32 * abi_word_count(spot_price_args(asset, currency)),
        vstd::utf8::encode_utf8(currency).len() <= 32 * abi_word_count(
            spot_price_args(asset, currency),
        ),
{
    let vs = spot_price_args(asset, currency);
    assert(vs.drop_first() =~= seq![AbiValue::Text(currency)]);
    assert(seq![AbiValue::Text(currency)].drop_first() =~= Seq::<AbiValue>::empty());
    reveal_with_fuel(abi_word_count, 3);
    lemma_padded(vstd::utf8::encode_utf8(asset));
    lemma_padded(vstd::utf8::encode_utf8(currency));
}

/// Law: distinct asset and currency pairs, swapped ones among them, give distinct `SpotPrice`
/// query data, and equal pairs equal data.
pub proof fn lemma_spot_price_injective(
    asset1: Seq<char>,
    currency1: Seq<char>,
    asset2: Seq<char>,
    currency2: Seq<char>,
)
    requires
        32 * (abi_word_count(spot_price_args(asset1, currency1)) + 5) <= u32::MAX,
        32 * (abi_word_count(spot_price_args(asset2, currency2)) + 5) <= u32::MAX,
    ensures
        abi_encoding(spot_price_query(asset1, currency1)) == abi_encoding(
            spot_price_query(asset2, currency2),
        ) <==> (asset1 == asset2 && currency1 == currency2),
{
    if abi_encoding(spot_price_query(asset1, currency1)) == abi_encoding(
        spot_price_query(asset2, currency2),
    ) {
        crate::word::lemma_pow256_32();
        let inner1 = spot_price_args(asset1, currency1);
        let inner2 = spot_price_args(asset2, currency2);
        lemma_spot_price_args_sizes(asset1, currency1);
        lemma_spot_price_args_sizes(asset2, currency2);
        lemma_encoding_len(inner1);
        lemma_encoding_len(inner2);
        reveal_strlit("SpotPrice");
        vstd::utf8::is_ascii_chars_encode_utf8("SpotPrice"@);
        let name = AbiValue::Text("SpotPrice"@);
        lemma_two_dynamic_injective(
            name,
            AbiValue::Bytes(abi_encoding(inner1)),
            name,
            AbiValue::Bytes(abi_encoding(inner2)),
        );
        assert(abi_encoding(inner1) == abi_encoding(inner2));
        lemma_two_dynamic_injective(
            AbiValue::Text(asset1),
            AbiValue::Text(currency1),
            AbiValue::Text(asset2),
            AbiValue::Text(currency2),
        );
        vstd::utf8::encode_utf8_decode_utf8(asset1);
        vstd::utf8::encode_utf8_decode_utf8(asset2);
        vstd::utf8::encode_utf8_decode_utf8(currency1);
        vstd::utf8::encode_utf8_decode_utf8(currency2);
    }
}

} // verus!
