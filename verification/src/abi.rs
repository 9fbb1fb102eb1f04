//! Ethereum ABI encoding and Keccak-256 hashing, as the `ethabi` and `sp-runtime` crates
//! compute them, over a token type of this library.

use vstd::prelude::*;
use vstd::utf8::encode_utf8;

use crate::word::{be_bytes, u128_word};

verus! {

/// One value handed to the ABI encoder.
pub enum AbiToken {
    /// An unsigned 256-bit integer, held as its 32-byte big-endian word.
    Uint([u8; 32]),
    /// A byte string of fixed size (`bytesN` in Solidity).
    FixedBytes(Vec<u8>),
    /// A byte string of any size (`bytes`).
    Bytes(Vec<u8>),
    /// A text string (`string`), encoded as its UTF-8 bytes.
    Text(String),
}

/// What an [`AbiToken`] holds, as mathematical values.
pub enum AbiValue {
    Uint(Seq<u8>),
    FixedBytes(Seq<u8>),
    Bytes(Seq<u8>),
    Text(Seq<char>),
}

impl View for AbiToken {
    type V = AbiValue;

    open spec fn view(&self) -> AbiValue {
        match self {
            AbiToken::Uint(w) => AbiValue::Uint(w@),
            AbiToken::FixedBytes(b) => AbiValue::FixedBytes(b@),
            AbiToken::Bytes(b) => AbiValue::Bytes(b@),
            AbiToken::Text(s) => AbiValue::Text(s@),
        }
    }
}

/// The values that a list of tokens holds.
pub open spec fn abi_values(tokens: Seq<AbiToken>) -> Seq<AbiValue> {
    tokens.map_values(|t: AbiToken| t@)
}

/// The number of 32-byte words that `len` bytes take up when padded.
pub open spec fn padded_words(len: nat) -> nat {
    (len + 31) / 32
}

/// `b` followed by zero bytes up to a whole number of 32-byte words.
pub open spec fn padded(b: Seq<u8>) -> Seq<u8> {
    b + Seq::new((32 * padded_words(b.len()) - b.len()) as nat, |i: int| 0u8)
}

/// A value of dynamic size: `bytes` or `string`.
pub open spec fn is_dynamic(v: AbiValue) -> bool {
    v is Bytes || v is Text
}

/// The bytes that a dynamic value holds: a `string` holds its UTF-8 bytes.
pub open spec fn dynamic_bytes(v: AbiValue) -> Seq<u8> {
    match v {
        AbiValue::Bytes(b) => b,
        AbiValue::Text(s) => encode_utf8(s),
        _ => Seq::empty(),
    }
}

/// The head of a value in an encoding whose tail part for it starts at byte `offset`: a
/// `uint` is its word, fixed bytes are themselves padded, a dynamic value is the offset of
/// its tail as a word.
pub open spec fn head(v: AbiValue, offset: nat) -> Seq<u8> {
    match v {
        AbiValue::Uint(w) => w,
        AbiValue::FixedBytes(b) => padded(b),
        _ => be_bytes(offset, 32),
    }
}

/// The tail of a value: for a dynamic value its length as a word and then its bytes, padded;
/// nothing for the others.
pub open spec fn tail(v: AbiValue) -> Seq<u8> {
    if is_dynamic(v) {
        be_bytes(dynamic_bytes(v).len(), 32) + padded(dynamic_bytes(v))
    } else {
        Seq::empty()
    }
}

/// The number of 32-byte words of the head of a value.
pub open spec fn head_words(v: AbiValue) -> nat {
    match v {
        AbiValue::FixedBytes(b) => padded_words(b.len()),
        _ => 1,
    }
}

/// The size in bytes of the heads of a list of values.
pub open spec fn heads_size(vs: Seq<AbiValue>) -> nat
    decreases vs.len(),
{
    if vs.len() == 0 {
        0
    } else {
        32 * head_words(vs[0]) + heads_size(vs.drop_first())
    }
}

/// The heads of a list of values whose tails start at byte `offset`.
pub open spec fn heads(vs: Seq<AbiValue>, offset: nat) -> Seq<u8>
    decreases vs.len(),
{
    if vs.len() == 0 {
        Seq::empty()
    } else {
        head(vs[0], offset) + heads(vs.drop_first(), offset + tail(vs[0]).len())
    }
}

/// The tails of a list of values, one after the other.
pub open spec fn tails(vs: Seq<AbiValue>) -> Seq<u8>
    decreases vs.len(),
{
    if vs.len() == 0 {
        Seq::empty()
    } else {
        tail(vs[0]) + tails(vs.drop_first())
    }
}

/// The ABI encoding of a list of values: the heads of all values, then their tails.
pub open spec fn abi_encoding(vs: Seq<AbiValue>) -> Seq<u8> {
    heads(vs, heads_size(vs)) + tails(vs)
}

/// The number of 32-byte words that one value takes up in an encoding: its head and its tail.
pub open spec fn value_words(v: AbiValue) -> nat {
    match v {
        AbiValue::Uint(_) => 1,
        AbiValue::FixedBytes(b) => padded_words(b.len()),
        AbiValue::Bytes(b) => 2 + padded_words(b.len()),
        AbiValue::Text(s) => 2 + padded_words(encode_utf8(s).len()),
    }
}

/// The number of 32-byte words of the encoding of a list of values.
pub open spec fn abi_word_count(vs: Seq<AbiValue>) -> nat
    decreases vs.len(),
{
    if vs.len() == 0 {
        0
    } else {
        value_words(vs[0]) + abi_word_count(vs.drop_first())
    }
}

/// Every `uint` of the list holds a 32-byte word, as every token does.
pub open spec fn uints_are_words(vs: Seq<AbiValue>) -> bool {
    forall|i: int| 0 <= i < vs.len() ==> (#[trigger] vs[i] matches AbiValue::Uint(w) ==> w.len() == 32)
}

/// A value that the encoding writes as exactly one 32-byte word, with no tail.
pub open spec fn is_word(v: AbiValue) -> bool {
    match v {
        AbiValue::Uint(w) => w.len() == 32,
        AbiValue::FixedBytes(b) => b.len() == 32,
        _ => false,
    }
}

/// The bytes of a value that [`is_word`].
pub open spec fn word_of(v: AbiValue) -> Seq<u8> {
    match v {
        AbiValue::Uint(w) => w,
        AbiValue::FixedBytes(b) => b,
        _ => Seq::empty(),
    }
}

/// The words of a list of values, one after the other.
pub open spec fn concat_words(vs: Seq<AbiValue>) -> Seq<u8>
    decreases vs.len(),
{
    if vs.len() == 0 {
        Seq::empty()
    } else {
        word_of(vs[0]) + concat_words(vs.drop_first())
    }
}

/// Padding `b` gives `b` and then zeros, `32` bytes per padded word in all.
pub proof fn lemma_padded(b: Seq<u8>)
    ensures
        padded(b).len() == 32 * padded_words(b.len()),
        padded(b).len() >= b.len(),
        padded(b).len() < b.len() + 32,
        padded(b).subrange(0, b.len() as int) == b,
{
    let n = b.len();
    let q = padded_words(n);
    vstd::arithmetic::div_mod::lemma_fundamental_div_mod((n + 31) as int, 32);
    assert(padded(b).subrange(0, n as int) =~= b);
}

/// A token list's values: every `uint` holds a 32-byte word.
pub proof fn lemma_token_values(tokens: Seq<AbiToken>)
    ensures
        uints_are_words(abi_values(tokens)),
        abi_values(tokens).len() == tokens.len(),
{
    let vs = abi_values(tokens);
    assert forall|i: int| 0 <= i < vs.len() implies (#[trigger] vs[i] matches AbiValue::Uint(
        w,
    ) ==> w.len() == 32) by {
        assert(vs[i] == tokens[i]@);
        match tokens[i] {
            AbiToken::Uint(a) => {
                assert(a@.len() == 32);
            },
            _ => {},
        }
    }
}

/// The heads take up `heads_size` bytes, wherever the tails start.
pub proof fn lemma_heads_len(vs: Seq<AbiValue>, offset: nat)
    requires
        uints_are_words(vs),
    ensures
        heads(vs, offset).len() == heads_size(vs),
    decreases vs.len(),
{
    if vs.len() > 0 {
        let rest = vs.drop_first();
        assert forall|i: int| 0 <= i < rest.len() implies (#[trigger] rest[i] matches AbiValue::Uint(
            w,
        ) ==> w.len() == 32) by {
            assert(rest[i] == vs[i + 1]);
        }
        lemma_heads_len(rest, offset + tail(vs[0]).len());
        assert(vs[0] matches AbiValue::Uint(w) ==> w.len() == 32);
        match vs[0] {
            AbiValue::FixedBytes(b) => lemma_padded(b),
            _ => {
                crate::word::lemma_be_bytes_len(offset, 32);
            },
        }
    }
}

/// The words of the heads and tails add up to [`abi_word_count`].
proof fn lemma_words_add_up(vs: Seq<AbiValue>)
    ensures
        heads_size(vs) + tails(vs).len() == 32 * abi_word_count(vs),
    decreases vs.len(),
{
    if vs.len() > 0 {
        lemma_words_add_up(vs.drop_first());
        let v = vs[0];
        if is_dynamic(v) {
            lemma_padded(dynamic_bytes(v));
            crate::word::lemma_be_bytes_len(dynamic_bytes(v).len(), 32);
        }
    }
}

/// The encoding takes up 32 bytes per word of [`abi_word_count`].
pub proof fn lemma_encoding_len(vs: Seq<AbiValue>)
    requires
        uints_are_words(vs),
    ensures
        abi_encoding(vs).len() == 32 * abi_word_count(vs),
{
    lemma_heads_len(vs, heads_size(vs));
    lemma_words_add_up(vs);
}

/// A list of values that each take one word is encoded as those words, one after the other,
/// in as many words as there are values.
pub proof fn lemma_words_encoding(vs: Seq<AbiValue>)
    requires
        forall|i: int| 0 <= i < vs.len() ==> is_word(#[trigger] vs[i]),
    ensures
        abi_encoding(vs) == concat_words(vs),
        abi_word_count(vs) == vs.len(),
{
    lemma_words_heads(vs, heads_size(vs));
    assert(abi_encoding(vs) =~= concat_words(vs));
}

proof fn lemma_words_heads(vs: Seq<AbiValue>, offset: nat)
    requires
        forall|i: int| 0 <= i < vs.len() ==> is_word(#[trigger] vs[i]),
    ensures
        heads(vs, offset) == concat_words(vs),
        tails(vs) == Seq::<u8>::empty(),
        abi_word_count(vs) == vs.len(),
    decreases vs.len(),
{
    if vs.len() > 0 {
        let rest = vs.drop_first();
        assert forall|i: int| 0 <= i < rest.len() implies is_word(#[trigger] rest[i]) by {
            assert(rest[i] == vs[i + 1]);
        }
        assert(is_word(vs[0]));
        lemma_words_heads(rest, offset + tail(vs[0]).len());
        match vs[0] {
            AbiValue::FixedBytes(b) => {
                assert(padded_words(32) == 1);
                assert(padded(b) =~= b);
            },
            _ => {},
        }
        assert(tails(vs) =~= Seq::<u8>::empty());
    }
}

/// The encoding of two dynamic values: the offsets of their tails (after the two head words),
/// then the two tails.
pub proof fn lemma_two_dynamic(x: AbiValue, y: AbiValue)
    requires
        is_dynamic(x),
        is_dynamic(y),
    ensures
        abi_encoding(seq![x, y]) == be_bytes(64, 32) + be_bytes(64 + tail(x).len(), 32) + tail(x)
            + tail(y),
{
    let vs = seq![x, y];
    assert(vs.drop_first() =~= seq![y]);
    assert(seq![y].drop_first() =~= Seq::<AbiValue>::empty());
    reveal_with_fuel(heads_size, 3);
    reveal_with_fuel(heads, 3);
    reveal_with_fuel(tails, 3);
    assert(heads_size(vs) == 64);
    assert(abi_encoding(vs) =~= be_bytes(64, 32) + be_bytes(64 + tail(x).len(), 32) + tail(x)
        + tail(y));
}

/// The tail of a dynamic value starts with its length as a word, followed by its bytes.
pub proof fn lemma_tail_parts(v: AbiValue)
    requires
        is_dynamic(v),
    ensures
        tail(v).len() == 32 + 32 * padded_words(dynamic_bytes(v).len()),
        tail(v).subrange(0, 32) == be_bytes(dynamic_bytes(v).len(), 32),
        tail(v).subrange(32, 32 + dynamic_bytes(v).len() as int) == dynamic_bytes(v),
{
    let b = dynamic_bytes(v);
    crate::word::lemma_be_bytes_len(b.len(), 32);
    lemma_padded(b);
    assert(tail(v).subrange(0, 32) =~= be_bytes(b.len(), 32));
    assert(tail(v).subrange(32, 32 + b.len() as int) =~= padded(b).subrange(0, b.len() as int));
}

/// Law: an encoding of two dynamic values determines the bytes of both, as long as their
/// lengths fit a word.
pub proof fn lemma_two_dynamic_injective(x1: AbiValue, y1: AbiValue, x2: AbiValue, y2: AbiValue)
    requires
        is_dynamic(x1),
        is_dynamic(y1),
        is_dynamic(x2),
        is_dynamic(y2),
        dynamic_bytes(x1).len() < crate::word::pow256(32),
        dynamic_bytes(y1).len() < crate::word::pow256(32),
        dynamic_bytes(x2).len() < crate::word::pow256(32),
        dynamic_bytes(y2).len() < crate::word::pow256(32),
        abi_encoding(seq![x1, y1]) == abi_encoding(seq![x2, y2]),
    ensures
        dynamic_bytes(x1) == dynamic_bytes(x2),
        dynamic_bytes(y1) == dynamic_bytes(y2),
{
    let e = abi_encoding(seq![x1, y1]);
    lemma_two_dynamic(x1, y1);
    lemma_two_dynamic(x2, y2);
    crate::word::lemma_be_bytes_len(64, 32);
    crate::word::lemma_be_bytes_len(64 + tail(x1).len(), 32);
    crate::word::lemma_be_bytes_len(64 + tail(x2).len(), 32);
    lemma_tail_parts(x1);
    lemma_tail_parts(y1);
    lemma_tail_parts(x2);
    lemma_tail_parts(y2);
    let e1 = be_bytes(64, 32) + be_bytes(64 + tail(x1).len(), 32) + tail(x1) + tail(y1);
    let e2 = be_bytes(64, 32) + be_bytes(64 + tail(x2).len(), 32) + tail(x2) + tail(y2);
    let lx1: int = dynamic_bytes(x1).len() as int;
    let lx2: int = dynamic_bytes(x2).len() as int;
    assert(e1.subrange(64, 96) =~= tail(x1).subrange(0, 32));
    assert(e2.subrange(64, 96) =~= tail(x2).subrange(0, 32));
    crate::word::lemma_be_bytes_injective(dynamic_bytes(x1).len(), dynamic_bytes(x2).len(), 32);
    assert(e1.subrange(96, 96 + lx1) =~= tail(x1).subrange(32, 32 + lx1));
    assert(e2.subrange(96, 96 + lx2) =~= tail(x2).subrange(32, 32 + lx2));
    let p: int = 64 + tail(x1).len() as int;
    assert(tail(x1).len() == tail(x2).len());
    let ly1: int = dynamic_bytes(y1).len() as int;
    let ly2: int = dynamic_bytes(y2).len() as int;
    assert(e1.subrange(p, p + 32) =~= tail(y1).subrange(0, 32));
    assert(e2.subrange(p, p + 32) =~= tail(y2).subrange(0, 32));
    crate::word::lemma_be_bytes_injective(dynamic_bytes(y1).len(), dynamic_bytes(y2).len(), 32);
    assert(e1.subrange(p + 32, p + 32 + ly1) =~= tail(y1).subrange(32, 32 + ly1));
    assert(e2.subrange(p + 32, p + 32 + ly2) =~= tail(y2).subrange(32, 32 + ly2));
}

/// The Keccak-256 digest of `data`.
pub uninterp spec fn keccak_256(data: Seq<u8>) -> Seq<u8>;

/// Calls `ethabi::encode` on the tokens, converted one for one into `ethabi::Token`s.
/// The contract claims of it that the result is [`abi_encoding`] of the tokens' values: the
/// heads of the values in order (a `uint` as its big-endian word, fixed bytes padded with
/// zeros to whole words, a `bytes` or `string` as the offset of its tail), then the tails of
/// the dynamic values in order (the length as a word, then the bytes padded with zeros).
/// It requires that the encoding's size fit in a `u32`, which the encoder's offset arithmetic
/// uses and would overflow otherwise.
#[verifier::external_body]
pub(crate) fn abi_encode(tokens: Vec<AbiToken>) -> (encoded: Vec<u8>)
    requires
        32 * abi_word_count(abi_values(tokens@)) <= u32::MAX,
    ensures
        encoded@ == abi_encoding(abi_values(tokens@)),
{
    let tokens: Vec<ethabi::Token> = tokens.into_iter().map(|t| match t {
        AbiToken::Uint(w) => ethabi::Token::Uint(ethabi::Uint::from_big_endian(&w)),
        AbiToken::FixedBytes(b) => ethabi::Token::FixedBytes(b),
        AbiToken::Bytes(b) => ethabi::Token::Bytes(b),
        AbiToken::Text(s) => ethabi::Token::String(s),
    }).collect();
    ethabi::encode(&tokens)
}

/// Calls `Hash::hash` of `sp_runtime::traits::Keccak256` on `data` and returns the bytes of
/// the 32-byte digest. The contract claims only that the digest is the one named by
/// [`keccak_256`] for the same bytes.
#[verifier::external_body]
pub(crate) fn keccak256(data: &Vec<u8>) -> (digest: [u8; 32])
    ensures
        digest@ == keccak_256(data@),
{
    <sp_runtime::traits::Keccak256 as sp_runtime::traits::Hash>::hash(data.as_slice()).0
}

/// The `uint` token of a `u128`.
pub(crate) fn uint_token(v: u128) -> (t: AbiToken)
    ensures
        t@ == AbiValue::Uint(be_bytes(v as nat, 32)),
{
    AbiToken::Uint(u128_word(v))
}

} // verus!
