//! Unsigned integers as 32-byte big-endian words, the unit of the ABI encoding.

use vstd::prelude::*;

verus! {

/// `256` to the power `n`: the number of distinct values of an `n`-byte word.
pub open spec fn pow256(n: nat) -> nat
    decreases n,
{
    if n == 0 {
        1
    } else {
        256 * pow256((n - 1) as nat)
    }
}

/// The `n` least significant bytes of `v`, most significant first.
pub open spec fn be_bytes(v: nat, n: nat) -> Seq<u8>
    decreases n,
{
    if n == 0 {
        Seq::empty()
    } else {
        be_bytes(v / 256, (n - 1) as nat).push((v % 256) as u8)
    }
}

/// The number that the bytes `s` stand for, read most significant first.
pub open spec fn be_value(s: Seq<u8>) -> nat
    decreases s.len(),
{
    if s.len() == 0 {
        0
    } else {
        (be_value(s.drop_last()) * 256 + s.last()) as nat
    }
}

/// `256^16` is the number of values of a `u128`.
pub proof fn lemma_pow256_16()
    ensures
        pow256(16) == 0x1_0000_0000_0000_0000_0000_0000_0000_0000,
{
    reveal_with_fuel(pow256, 17);
}

/// `256^32` is the number of values of a 32-byte word.
pub proof fn lemma_pow256_32()
    ensures
        pow256(32) == 0x1_0000_0000_0000_0000_0000_0000_0000_0000_0000_0000_0000_0000_0000_0000_0000_0000,
{
    reveal_with_fuel(pow256, 33);
}

/// A big-endian word of `n` bytes has exactly `n` bytes.
pub proof fn lemma_be_bytes_len(v: nat, n: nat)
    ensures
        be_bytes(v, n).len() == n,
    decreases n,
{
    if n > 0 {
        lemma_be_bytes_len(v / 256, (n - 1) as nat);
    }
}

/// Reading back the `n`-byte big-endian word of a value below `256^n` gives the value.
pub proof fn lemma_be_value_of_be_bytes(v: nat, n: nat)
    requires
        v < pow256(n),
    ensures
        be_value(be_bytes(v, n)) == v,
    decreases n,
{
    if n > 0 {
        let p = pow256((n - 1) as nat);
        let q = v / 256;
        let r = v % 256;
        assert(v == 256 * q + r && 0 <= r < 256) by (nonlinear_arith)
            requires
                v >= 0,
                q == v / 256,
                r == v % 256,
        ;
        assert(q < p) by (nonlinear_arith)
            requires
                v == 256 * q + r,
                0 <= r,
                v < 256 * p,
        ;
        lemma_be_value_of_be_bytes(q, (n - 1) as nat);
        let s = be_bytes(v, n);
        assert(s.drop_last() =~= be_bytes(q, (n - 1) as nat));
    }
}

/// Writing the value of `n` bytes back as an `n`-byte big-endian word gives the bytes.
pub proof fn lemma_be_bytes_of_be_value(s: Seq<u8>)
    ensures
        be_bytes(be_value(s), s.len()) == s,
    decreases s.len(),
{
    if s.len() > 0 {
        let front = s.drop_last();
        let x = be_value(front);
        let last = s.last() as int;
        vstd::arithmetic::div_mod::lemma_fundamental_div_mod_converse(
            be_value(s) as int,
            256,
            x as int,
            last,
        );
        lemma_be_bytes_of_be_value(front);
        assert(s =~= front.push(s.last()));
    }
}

/// Two values below `256^n` with the same `n`-byte word are equal.
pub proof fn lemma_be_bytes_injective(a: nat, b: nat, n: nat)
    requires
        a < pow256(n),
        b < pow256(n),
        be_bytes(a, n) == be_bytes(b, n),
    ensures
        a == b,
{
    lemma_be_value_of_be_bytes(a, n);
    lemma_be_value_of_be_bytes(b, n);
}

/// The word of `a * 256^m + b`, for `b` below `256^m`, is the word of `a` followed by that of `b`.
pub proof fn lemma_be_bytes_split(a: nat, b: nat, n: nat, m: nat)
    requires
        b < pow256(m),
    ensures
        be_bytes(a * pow256(m) + b, n + m) == be_bytes(a, n) + be_bytes(b, m),
    decreases m,
{
    if m == 0 {
        assert(b == 0);
        assert(be_bytes(b, m) =~= Seq::<u8>::empty());
        assert(be_bytes(a, n) + be_bytes(b, m) =~= be_bytes(a, n));
    } else {
        let p = pow256((m - 1) as nat);
        let x = a * pow256(m) + b;
        let q = b / 256;
        let r = b % 256;
        assert(b == 256 * q + r && 0 <= r < 256) by (nonlinear_arith)
            requires
                b >= 0,
                q == b / 256,
                r == b % 256,
        ;
        assert(q < p) by (nonlinear_arith)
            requires
                b == 256 * q + r,
                0 <= r,
                b < 256 * p,
        ;
        assert(x == (a * p + q) * 256 + r) by (nonlinear_arith)
            requires
                x == a * (256 * p) + b,
                b == 256 * q + r,
        ;
        vstd::arithmetic::div_mod::lemma_fundamental_div_mod_converse(
            x as int,
            256,
            (a * p + q) as int,
            r as int,
        );
        assert(a * p + q >= 0) by (nonlinear_arith)
            requires
                a >= 0,
                p >= 0,
                q >= 0,
        ;
        lemma_be_bytes_split(a, q, n, (m - 1) as nat);
        assert((n + m - 1) as nat == n + (m - 1) as nat);
        assert(be_bytes(x, n + m) =~= be_bytes((a * p + q) as nat, (n + (m - 1)) as nat).push(
            r as u8,
        ));
        assert(be_bytes(b, m) =~= be_bytes(q, (m - 1) as nat).push(r as u8));
        assert(be_bytes(x, n + m) =~= be_bytes(a, n) + be_bytes(b, m));
    }
}

/// `a` comes before `b` in byte order, as Rust orders byte slices: at the first place where
/// they differ `a` has the smaller byte, or `a` is a proper prefix of `b`.
pub open spec fn bytes_before(a: Seq<u8>, b: Seq<u8>) -> bool {
    ||| exists|i: int| 0 <= i < a.len() && i < b.len() && a.take(i) == b.take(i) && #[trigger] a[i] < b[i]
    ||| a.len() < b.len() && a == b.take(a.len() as int)
}

/// Appending one byte to each of two sequences of the same length: the longer ones are in
/// byte order when the shorter ones are, or when they are equal and the new bytes are.
pub proof fn lemma_bytes_before_push(a: Seq<u8>, b: Seq<u8>, x: u8, y: u8)
    requires
        a.len() == b.len(),
    ensures
        bytes_before(a.push(x), b.push(y)) <==> (bytes_before(a, b) || (a == b && x < y)),
{
    let ax = a.push(x);
    let by = b.push(y);
    if bytes_before(ax, by) {
        let i = choose|i: int|
            0 <= i < ax.len() && i < by.len() && ax.take(i) == by.take(i) && #[trigger] ax[i] < by[i];
        if i < a.len() {
            assert(a.take(i) =~= ax.take(i));
            assert(b.take(i) =~= by.take(i));
            assert(a[i] < b[i]);
        } else {
            assert(a =~= ax.take(i));
            assert(b =~= by.take(i));
        }
    }
    if bytes_before(a, b) {
        if a.len() < b.len() && a == b.take(a.len() as int) {
        } else {
            let i = choose|i: int|
                0 <= i < a.len() && i < b.len() && a.take(i) == b.take(i) && #[trigger] a[i] < b[i];
            assert(ax.take(i) =~= a.take(i));
            assert(by.take(i) =~= b.take(i));
            assert(ax[i] < by[i]);
        }
    }
    if a == b && x < y {
        let i = a.len() as int;
        assert(ax.take(i) =~= a);
        assert(by.take(i) =~= b);
        assert(ax[i] < by[i]);
    }
}

/// Big-endian words of the same size are in byte order exactly when their values are in
/// numeric order.
pub proof fn lemma_be_bytes_order(v1: nat, v2: nat, n: nat)
    requires
        v1 < pow256(n),
        v2 < pow256(n),
    ensures
        v1 < v2 <==> bytes_before(be_bytes(v1, n), be_bytes(v2, n)),
    decreases n,
{
    lemma_be_bytes_len(v1, n);
    lemma_be_bytes_len(v2, n);
    if n == 0 {
        assert(!bytes_before(be_bytes(v1, n), be_bytes(v2, n)));
    } else {
        let p = pow256((n - 1) as nat);
        let q1 = v1 / 256;
        let r1 = v1 % 256;
        let q2 = v2 / 256;
        let r2 = v2 % 256;
        assert(v1 == 256 * q1 + r1 && 0 <= r1 < 256 && v2 == 256 * q2 + r2 && 0 <= r2 < 256)
            by (nonlinear_arith)
            requires
                v1 >= 0,
                v2 >= 0,
                q1 == v1 / 256,
                r1 == v1 % 256,
                q2 == v2 / 256,
                r2 == v2 % 256,
        ;
        assert(q1 < p && q2 < p) by (nonlinear_arith)
            requires
                v1 == 256 * q1 + r1,
                v2 == 256 * q2 + r2,
                0 <= r1,
                0 <= r2,
                v1 < 256 * p,
                v2 < 256 * p,
        ;
        assert(v1 < v2 <==> (q1 < q2 || (q1 == q2 && r1 < r2))) by (nonlinear_arith)
            requires
                v1 == 256 * q1 + r1,
                v2 == 256 * q2 + r2,
                0 <= r1 < 256,
                0 <= r2 < 256,
        ;
        lemma_be_bytes_order(q1, q2, (n - 1) as nat);
        lemma_be_bytes_len(q1, (n - 1) as nat);
        lemma_be_bytes_len(q2, (n - 1) as nat);
        let a = be_bytes(q1, (n - 1) as nat);
        let b = be_bytes(q2, (n - 1) as nat);
        if a == b {
            lemma_be_bytes_injective(q1, q2, (n - 1) as nat);
        }
        lemma_bytes_before_push(a, b, r1 as u8, r2 as u8);
    }
}

/// A 256-bit unsigned integer, held as its high and low 128 bits.
#[derive(Clone, Copy, Debug, PartialEq, Eq)]
pub struct Uint256 {
    pub high: u128,
    pub low: u128,
}

impl Uint256 {
    /// The number that this integer stands for.
    pub open spec fn value(self) -> nat {
        self.high as nat * pow256(16) + self.low as nat
    }

    /// The 256-bit integer of the same value as `v`.
    pub fn from_u128(v: u128) -> (r: Uint256)
        ensures
            r.value() == v,
    {
        Uint256 { high: 0, low: v }
    }

    /// The 32-byte big-endian word of this integer.
    pub fn to_be_word(&self) -> (word: [u8; 32])
        ensures
            word@ == be_bytes(self.value(), 32),
    {
        let mut word = [0u8; 32];
        write_be_u128(&mut word, 0, self.high);
        write_be_u128(&mut word, 16, self.low);
        proof {
            lemma_pow256_16();
            lemma_be_bytes_split(self.high as nat, self.low as nat, 16, 16);
            assert(word@ =~= be_bytes(self.high as nat, 16) + be_bytes(self.low as nat, 16));
        }
        word
    }
}

/// Every 256-bit integer is below `256^32`.
pub proof fn lemma_uint256_value_bound(value: Uint256)
    ensures
        value.value() < pow256(32),
{
    lemma_pow256_16();
    lemma_pow256_32();
    let h = value.high as nat;
    let l = value.low as nat;
    assert(h * 0x1_0000_0000_0000_0000_0000_0000_0000_0000 + l
        < 0x1_0000_0000_0000_0000_0000_0000_0000_0000_0000_0000_0000_0000_0000_0000_0000_0000)
        by (nonlinear_arith)
        requires
            h < 0x1_0000_0000_0000_0000_0000_0000_0000_0000,
            l < 0x1_0000_0000_0000_0000_0000_0000_0000_0000,
    ;
}

/// The 32-byte big-endian word of a `u128`.
pub fn u128_word(v: u128) -> (word: [u8; 32])
    ensures
        word@ == be_bytes(v as nat, 32),
{
    Uint256::from_u128(v).to_be_word()
}

/// Writes the 16-byte big-endian word of `x` into `word` at `offset`, and nothing else.
fn write_be_u128(word: &mut [u8; 32], offset: usize, x: u128)
    requires
        offset == 0 || offset == 16,
    ensures
        final(word)@ == old(word)@.subrange(0, offset as int) + be_bytes(x as nat, 16) + old(
            word,
        )@.subrange(offset + 16, 32),
{
    let mut rest: u128 = x;
    let mut i: usize = 0;
    while i < 16
        invariant
            offset == 0 || offset == 16,
            0 <= i <= 16,
            word@.len() == 32,
            word@.subrange(0, offset as int) == old(word)@.subrange(0, offset as int),
            word@.subrange(offset + 16, 32) == old(word)@.subrange(offset + 16, 32),
            be_bytes(x as nat, 16) == be_bytes(rest as nat, (16 - i) as nat) + word@.subrange(
                offset + 16 - i,
                offset + 16,
            ),
        decreases 16 - i,
    {
        let ghost before = word@;
        let pos: usize = offset + 15 - i;
        let byte: u8 = (rest % 256) as u8;
        word[pos] = byte;
        proof {
            let n = (16 - i) as nat;
            assert(be_bytes(rest as nat, n) == be_bytes((rest / 256) as nat, (n - 1) as nat).push(
                byte,
            ));
            assert(word@.subrange(pos as int, offset + 16) =~= seq![byte] + before.subrange(
                offset + 16 - i,
                offset + 16,
            ));
            assert(word@.subrange(0, offset as int) =~= before.subrange(0, offset as int));
            assert(word@.subrange(offset + 16, 32) =~= before.subrange(offset + 16, 32));
            assert(be_bytes((rest / 256) as nat, (n - 1) as nat).push(byte) + before.subrange(
                offset + 16 - i,
                offset + 16,
            ) =~= be_bytes((rest / 256) as nat, (n - 1) as nat) + word@.subrange(
                pos as int,
                offset + 16,
            ));
        }
        rest = rest / 256;
        i = i + 1;
    }
    proof {
        assert(be_bytes(rest as nat, 0) =~= Seq::<u8>::empty());
        assert(be_bytes(x as nat, 16) =~= word@.subrange(offset as int, offset + 16));
        assert(word@ =~= word@.subrange(0, offset as int) + word@.subrange(
            offset as int,
            offset + 16,
        ) + word@.subrange(offset + 16, 32));
    }
}

} // verus!
