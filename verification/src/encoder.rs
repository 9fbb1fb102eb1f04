//! The ABI encoding computed in verified code, and the check of `ethabi`'s encoding against it.
//!
//! Every encoding that the library hashes or returns goes through [`encode`]: it computes the
//! encoding of the tokens itself, proved equal to [`abi_encoding`], and takes `ethabi`'s
//! encoding only where the two agree byte for byte.

use vstd::prelude::*;

use crate::abi::{
    abi_encode, abi_encoding, abi_values, abi_word_count, dynamic_bytes, head, head_words,
    heads, heads_size, is_dynamic, lemma_padded, padded, padded_words, tail, tails, value_words,
    AbiToken, AbiValue,
};
use crate::word::{lemma_be_bytes_len, u128_word};

verus! {

/// Appends `bytes` to `out`.
fn push_bytes(out: &mut Vec<u8>, bytes: &[u8])
    ensures
        final(out)@ == old(out)@ + bytes@,
{
    let mut i: usize = 0;
    while i < bytes.len()
        invariant
            i <= bytes@.len(),
            out@ == old(out)@ + bytes@.take(i as int),
        decreases bytes.len() - i,
    {
        out.push(bytes[i]);
        proof {
            assert(bytes@.take(i + 1) =~= bytes@.take(i as int).push(bytes@[i as int]));
            assert(old(out)@ + bytes@.take(i + 1) =~= old(out)@ + bytes@.take(i as int) + seq![
                bytes@[i as int],
            ]);
        }
        i = i + 1;
    }
    proof {
        assert(bytes@.take(bytes@.len() as int) =~= bytes@);
    }
}

/// Appends `bytes` padded with zeros to whole 32-byte words.
fn push_padded(out: &mut Vec<u8>, bytes: &[u8])
    requires
        padded(bytes@).len() <= u32::MAX,
    ensures
        final(out)@ == old(out)@ + padded(bytes@),
{
    push_bytes(out, bytes);
    let n: usize = bytes.len();
    proof {
        lemma_padded(bytes@);
        lemma_padded_fits(n as nat);
    }
    let total: usize = (n + 31) / 32 * 32;
    proof {
        lemma_padded(bytes@);
        assert(total == 32 * padded_words(n as nat));
    }
    let ghost zeros = padded(bytes@).subrange(n as int, total as int);
    let mut k: usize = n;
    while k < total
        invariant
            n <= k <= total,
            n == bytes@.len(),
            total == padded(bytes@).len(),
            out@ == old(out)@ + bytes@ + Seq::new((k - n) as nat, |i: int| 0u8),
        decreases total - k,
    {
        out.push(0u8);
        proof {
            assert(Seq::new((k + 1 - n) as nat, |i: int| 0u8) =~= Seq::new(
                (k - n) as nat,
                |i: int| 0u8,
            ).push(0u8));
            assert(old(out)@ + bytes@ + Seq::new((k + 1 - n) as nat, |i: int| 0u8) =~= old(
                out,
            )@ + bytes@ + Seq::new((k - n) as nat, |i: int| 0u8) + seq![0u8]);
        }
        k = k + 1;
    }
    proof {
        assert(padded(bytes@) =~= bytes@ + Seq::new((total - n) as nat, |i: int| 0u8));
        assert(old(out)@ + bytes@ + Seq::new((total - n) as nat, |i: int| 0u8) =~= old(out)@
            + padded(bytes@));
    }
}

/// When `n` bytes padded fit in a `u32`, so does `n + 31`.
proof fn lemma_padded_fits(n: nat)
    requires
        32 * padded_words(n) <= u32::MAX,
    ensures
        n + 31 <= u32::MAX,
{
    let q = padded_words(n);
    vstd::arithmetic::div_mod::lemma_fundamental_div_mod((n + 31) as int, 32);
    assert(n + 31 <= u32::MAX) by (nonlinear_arith)
        requires
            q == (n + 31) / 32,
            n + 31 == 32 * q + (n + 31) % 32,
            0 <= (n + 31) % 32 < 32,
            32 * q <= 0xffff_ffff,
    ;
}

/// The bytes that a token's value holds when it is dynamic: its bytes, or a string's UTF-8.
fn token_bytes(token: &AbiToken) -> (bytes: &[u8])
    requires
        is_dynamic(token@),
    ensures
        bytes@ == dynamic_bytes(token@),
{
    match token {
        AbiToken::Bytes(b) => b.as_slice(),
        AbiToken::Text(s) => s.as_str().as_bytes(),
        AbiToken::Uint(w) => w.as_slice(),
        AbiToken::FixedBytes(b) => b.as_slice(),
    }
}

/// Whether a token's value is dynamic.
fn token_is_dynamic(token: &AbiToken) -> (dynamic: bool)
    ensures
        dynamic == is_dynamic(token@),
{
    match token {
        AbiToken::Bytes(_) => true,
        AbiToken::Text(_) => true,
        _ => false,
    }
}

/// The size in bytes of a token's tail.
fn tail_len(token: &AbiToken) -> (len: usize)
    requires
        tail(token@).len() <= u32::MAX,
    ensures
        len == tail(token@).len(),
{
    if token_is_dynamic(token) {
        let bytes = token_bytes(token);
        proof {
            lemma_padded(bytes@);
            lemma_be_bytes_len(bytes@.len(), 32);
            lemma_padded_fits(bytes@.len());
        }
        32 + (bytes.len() + 31) / 32 * 32
    } else {
        0
    }
}

/// The size in bytes of a token's head.
fn head_len(token: &AbiToken) -> (len: usize)
    requires
        32 * head_words(token@) <= u32::MAX,
    ensures
        len == 32 * head_words(token@),
{
    match token {
        AbiToken::FixedBytes(b) => {
            proof {
                lemma_padded_fits(b@.len());
            }
            (b.len() + 31) / 32 * 32
        },
        _ => 32,
    }
}

/// Appends the head of a token whose tail starts at byte `offset`.
fn push_head(out: &mut Vec<u8>, token: &AbiToken, offset: usize)
    requires
        32 * head_words(token@) <= u32::MAX,
    ensures
        final(out)@ == old(out)@ + head(token@, offset as nat),
{
    match token {
        AbiToken::Uint(w) => push_bytes(out, w.as_slice()),
        AbiToken::FixedBytes(b) => {
            proof {
                lemma_padded(b@);
            }
            push_padded(out, b.as_slice());
        },
        _ => {
            let word = u128_word(offset as u128);
            push_bytes(out, word.as_slice());
        },
    }
}

/// Appends the tail of a token.
fn push_tail(out: &mut Vec<u8>, token: &AbiToken)
    requires
        tail(token@).len() <= u32::MAX,
    ensures
        final(out)@ == old(out)@ + tail(token@),
{
    if token_is_dynamic(token) {
        let bytes = token_bytes(token);
        proof {
            lemma_padded(bytes@);
            lemma_be_bytes_len(bytes@.len(), 32);
        }
        let word = u128_word(bytes.len() as u128);
        push_bytes(out, word.as_slice());
        push_padded(out, bytes);
        proof {
            assert(old(out)@ + word@ + padded(bytes@) =~= old(out)@ + tail(token@));
        }
    } else {
        proof {
            assert(old(out)@ + tail(token@) =~= old(out)@);
        }
    }
}

/// The words of a value are those of its head and of its tail.
proof fn lemma_value_words(v: AbiValue)
    ensures
        32 * value_words(v) == 32 * head_words(v) + tail(v).len(),
{
    if is_dynamic(v) {
        lemma_padded(dynamic_bytes(v));
        lemma_be_bytes_len(dynamic_bytes(v).len(), 32);
    }
}

/// The words of a list split into those of its first value and those of the rest; the heads
/// and tails of the rest follow from the first value's.
proof fn lemma_unfold_at(vs: Seq<AbiValue>, i: int, offset: nat)
    requires
        0 <= i < vs.len(),
    ensures
        vs.skip(i).drop_first() == vs.skip(i + 1),
        vs.skip(i)[0] == vs[i],
        abi_word_count(vs.skip(i)) == value_words(vs[i]) + abi_word_count(vs.skip(i + 1)),
        heads_size(vs.skip(i)) == 32 * head_words(vs[i]) + heads_size(vs.skip(i + 1)),
        heads(vs.skip(i), offset) == head(vs[i], offset) + heads(
            vs.skip(i + 1),
            offset + tail(vs[i]).len(),
        ),
        tails(vs.skip(i)) == tail(vs[i]) + tails(vs.skip(i + 1)),
{
    assert(vs.skip(i).drop_first() =~= vs.skip(i + 1));
}

/// The heads and tails of a list take up no more bytes than its words.
proof fn lemma_sizes(vs: Seq<AbiValue>)
    ensures
        heads_size(vs) + tails(vs).len() == 32 * abi_word_count(vs),
    decreases vs.len(),
{
    if vs.len() > 0 {
        lemma_sizes(vs.drop_first());
        lemma_value_words(vs[0]);
    }
}

/// The ABI encoding of the tokens, computed here: the heads of all tokens, then their tails.
pub fn encode_tokens(tokens: &Vec<AbiToken>) -> (encoded: Vec<u8>)
    requires
        32 * abi_word_count(abi_values(tokens@)) <= u32::MAX,
    ensures
        encoded@ == abi_encoding(abi_values(tokens@)),
{
    let ghost vs = abi_values(tokens@);
    let ghost total = 32 * abi_word_count(vs);
    let n = tokens.len();
    proof {
        assert(vs.len() == n);
        assert(vs.skip(0) =~= vs);
        lemma_sizes(vs);
    }
    let mut hs: usize = 0;
    let mut i: usize = 0;
    while i < n
        invariant
            n == tokens@.len(),
            vs == abi_values(tokens@),
            vs.len() == n,
            total == 32 * abi_word_count(vs),
            total <= u32::MAX,
            i <= n,
            hs + heads_size(vs.skip(i as int)) == heads_size(vs),
            heads_size(vs) + tails(vs).len() == total,
        decreases n - i,
    {
        proof {
            lemma_unfold_at(vs, i as int, 0);
            assert(tokens@[i as int]@ == vs[i as int]);
        }
        hs = hs + head_len(&tokens[i]);
        i = i + 1;
    }
    proof {
        assert(vs.skip(n as int) =~= Seq::<AbiValue>::empty());
    }
    let mut out: Vec<u8> = Vec::new();
    let mut offset: usize = hs;
    i = 0;
    while i < n
        invariant
            n == tokens@.len(),
            vs == abi_values(tokens@),
            vs.len() == n,
            total == 32 * abi_word_count(vs),
            total <= u32::MAX,
            i <= n,
            hs == heads_size(vs),
            heads_size(vs) + tails(vs).len() == total,
            out@ + heads(vs.skip(i as int), offset as nat) == heads(vs, hs as nat),
            offset + tails(vs.skip(i as int)).len() == hs + tails(vs).len(),
        decreases n - i,
    {
        let ghost before = out@;
        proof {
            lemma_unfold_at(vs, i as int, offset as nat);
            assert(tokens@[i as int]@ == vs[i as int]);
            lemma_sizes(vs.skip(i as int));
            lemma_value_words(vs[i as int]);
            lemma_sizes(vs.skip(i + 1));
            lemma_word_count_suffix(vs, i as int);
            assert(heads_size(vs.skip(i as int)) <= 32 * abi_word_count(vs.skip(i as int)));
            assert(32 * head_words(vs[i as int]) <= u32::MAX);
            assert(tail(vs[i as int]).len() <= u32::MAX);
        }
        push_head(&mut out, &tokens[i], offset);
        let t = tail_len(&tokens[i]);
        proof {
            assert(before + head(vs[i as int], offset as nat) + heads(
                vs.skip(i + 1),
                (offset + tail(vs[i as int]).len()) as nat,
            ) =~= before + heads(vs.skip(i as int), offset as nat));
        }
        offset = offset + t;
        i = i + 1;
    }
    proof {
        assert(vs.skip(n as int) =~= Seq::<AbiValue>::empty());
        assert(out@ =~= heads(vs, hs as nat));
        assert(vs.skip(0) =~= vs);
    }
    i = 0;
    while i < n
        invariant
            n == tokens@.len(),
            vs == abi_values(tokens@),
            vs.len() == n,
            total == 32 * abi_word_count(vs),
            total <= u32::MAX,
            i <= n,
            hs == heads_size(vs),
            heads_size(vs) + tails(vs).len() == total,
            out@ + tails(vs.skip(i as int)) == heads(vs, hs as nat) + tails(vs),
        decreases n - i,
    {
        let ghost before = out@;
        proof {
            lemma_unfold_at(vs, i as int, 0);
            assert(tokens@[i as int]@ == vs[i as int]);
            lemma_sizes(vs.skip(i as int));
            lemma_sizes(vs.skip(i + 1));
            lemma_value_words(vs[i as int]);
            lemma_word_count_suffix(vs, i as int);
            assert(tails(vs.skip(i as int)).len() <= 32 * abi_word_count(vs.skip(i as int)));
            assert(tail(vs[i as int]).len() <= u32::MAX);
        }
        push_tail(&mut out, &tokens[i]);
        proof {
            assert(before + tail(vs[i as int]) + tails(vs.skip(i + 1)) =~= before + tails(
                vs.skip(i as int),
            ));
        }
        i = i + 1;
    }
    proof {
        assert(vs.skip(n as int) =~= Seq::<AbiValue>::empty());
        assert(out@ =~= abi_encoding(vs));
    }
    out
}

/// The words of a suffix of a list are no more than those of the list.
proof fn lemma_word_count_suffix(vs: Seq<AbiValue>, i: int)
    requires
        0 <= i <= vs.len(),
    ensures
        abi_word_count(vs.skip(i)) <= abi_word_count(vs),
    decreases i,
{
    if i > 0 {
        lemma_word_count_suffix(vs, i - 1);
        lemma_unfold_at(vs, i - 1, 0);
    } else {
        assert(vs.skip(0) =~= vs);
    }
}

/// Whether two byte strings are equal.
fn same_bytes(a: &Vec<u8>, b: &Vec<u8>) -> (same: bool)
    ensures
        same == (a@ == b@),
{
    if a.len() != b.len() {
        return false;
    }
    let mut i: usize = 0;
    while i < a.len()
        invariant
            a@.len() == b@.len(),
            i <= a@.len(),
            forall|k: int| 0 <= k < i ==> a@[k] == b@[k],
        decreases a.len() - i,
    {
        if a[i] != b[i] {
            return false;
        }
        i = i + 1;
    }
    proof {
        assert(a@ =~= b@);
    }
    true
}

/// The ABI encoding of the tokens: `ethabi`'s encoding where it agrees byte for byte with the
/// encoding computed here by [`encode_tokens`], and the computed one where it does not.
pub fn encode(tokens: Vec<AbiToken>) -> (encoded: Vec<u8>)
    requires
        32 * abi_word_count(abi_values(tokens@)) <= u32::MAX,
    ensures
        encoded@ == abi_encoding(abi_values(tokens@)),
{
    let computed = encode_tokens(&tokens);
    let from_ethabi = abi_encode(tokens);
    if same_bytes(&from_ethabi, &computed) {
        from_ethabi
    } else {
        computed
    }
}

} // verus!
