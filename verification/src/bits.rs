//! Bits of machine words as mathematical truth values, and counting them.

use vstd::prelude::*;

verus! {

/// Bit `i` of `w`.
pub open spec fn bit(w: u64, i: int) -> bool {
    (w >> (i as u64)) & 1u64 == 1u64
}

/// The 64 bits of `w`, least significant first.
pub open spec fn bits_of(w: u64) -> Seq<bool> {
    Seq::new(64, |i: int| bit(w, i))
}

/// How many of the first `n` entries of `s` are `true`.
pub open spec fn ones(s: Seq<bool>, n: int) -> nat
    decreases n,
{
    if n <= 0 {
        0
    } else {
        ones(s, n - 1) + if s[n - 1] {
            1nat
        } else {
            0nat
        }
    }
}

/// `u64::count_ones`: the number of ones in the binary representation.
pub assume_specification[ u64::count_ones ](w: u64) -> (r: u32)
    ensures
        r == ones(bits_of(w), 64),
;

/// `u32::count_ones`: the number of ones in the binary representation.
pub assume_specification[ u32::count_ones ](w: u32) -> (r: u32)
    ensures
        r == ones(bits_of(w as u64), 32),
;

/// The count only looks at the first `n` entries.
pub proof fn lemma_ones_agree(s: Seq<bool>, t: Seq<bool>, n: int)
    requires
        forall|i: int| 0 <= i < n ==> s[i] == t[i],
    ensures
        ones(s, n) == ones(t, n),
    decreases n,
{
    if n > 0 {
        lemma_ones_agree(s, t, n - 1);
    }
}

/// The count over `a + b` entries splits at `a`; `t` is `s` shifted down by `a`.
pub proof fn lemma_ones_split(s: Seq<bool>, t: Seq<bool>, a: int, b: int)
    requires
        0 <= a,
        0 <= b,
        forall|i: int| 0 <= i < b ==> #[trigger] t[i] == s[a + i],
    ensures
        ones(s, a + b) == ones(s, a) + ones(t, b),
    decreases b,
{
    if b > 0 {
        lemma_ones_split(s, t, a, b - 1);
        assert(t[b - 1] == s[a + (b - 1)]);
        assert(s[a + b - 1] == t[b - 1]);
    }
}

/// The count is monotone and grows by at most one per entry.
pub proof fn lemma_ones_monotone(s: Seq<bool>, a: int, b: int)
    requires
        0 <= a <= b,
    ensures
        ones(s, a) <= ones(s, b) <= ones(s, a) + (b - a),
    decreases b,
{
    if a < b {
        lemma_ones_monotone(s, a, b - 1);
    }
}

/// A zero count means that nothing is set, and the other way round.
pub proof fn lemma_ones_zero(s: Seq<bool>, n: int)
    requires
        0 <= n,
    ensures
        ones(s, n) == 0 <==> forall|i: int| 0 <= i < n ==> !#[trigger] s[i],
    decreases n,
{
    if n > 0 {
        lemma_ones_zero(s, n - 1);
        assert(ones(s, n) == ones(s, n - 1) + if s[n - 1] {
            1nat
        } else {
            0nat
        });
        if forall|i: int| 0 <= i < n - 1 ==> !#[trigger] s[i] {
        }
    }
}

/// Setting an unset entry below `n` raises the count by one.
pub proof fn lemma_ones_update(s: Seq<bool>, k: int, v: bool, n: int)
    requires
        0 <= k < s.len(),
        0 <= n <= s.len(),
    ensures
        ones(s.update(k, v), n) == ones(s, n) + (if k < n && v && !s[k] {
            1int
        } else if k < n && !v && s[k] {
            -1int
        } else {
            0int
        }),
    decreases n,
{
    if n > 0 {
        lemma_ones_update(s, k, v, n - 1);
        if k == n - 1 {
            lemma_ones_agree(s, s.update(k, v), n - 1);
        }
    }
}

/// Words with equal bits are equal.
pub proof fn lemma_bits_determine(v: u64, w: u64)
    requires
        forall|i: int| 0 <= i < 64 ==> bit(v, i) == #[trigger] bit(w, i),
    ensures
        v == w,
    decreases v + w,
{
    if v != 0 || w != 0 {
        let (a, b) = (v >> 1, w >> 1);
        assert(bit(v, 0) == bit(w, 0));
        assert forall|i: int| 0 <= i < 64 implies bit(a, i) == #[trigger] bit(b, i) by {
            let k: u64 = i as u64;
            if k < 63 {
                lemma_bit_half(v, k);
                lemma_bit_half(w, k);
                assert(bit(v, i + 1) == bit(w, i + 1));
            } else {
                lemma_bit_half(v, 63);
                lemma_bit_half(w, 63);
            }
        }
        lemma_bit_half(v, 0);
        lemma_bit_half(w, 0);
        lemma_bits_determine(a, b);
    }
}

/// Halving a word moves its bits down by one.
pub proof fn lemma_bit_half(v: u64, i: u64)
    requires
        i < 64,
    ensures
        bit(v >> 1, i as int) == (i < 63 && bit(v, i + 1)),
        v >> 1 == v / 2,
        v % 2 == if bit(v, 0) { 1u64 } else { 0u64 },
{
    let j: u64 = (i + 1) as u64;
    assert({
        &&& (((v >> 1) >> i) & 1u64 == 1u64 <==> (i < 63 && (v >> j) & 1u64 == 1u64))
        &&& v >> 1 == v / 2
        &&& v % 2 == if (v >> 0) & 1u64 == 1u64 { 1u64 } else { 0u64 }
    }) by (bit_vector)
        requires
            i < 64,
            j == i + 1,
    ;
}

/// Reading a bit of a word with bit `k` set or cleared, and of a word masked
/// to its low `k` bits.
pub proof fn lemma_bit_ops(w: u64, k: u64, i: u64)
    requires
        k < 64,
        i < 64,
    ensures
        bit(w | (1u64 << k), i as int) == (i == k || bit(w, i as int)),
        bit(w & !(1u64 << k), i as int) == (i != k && bit(w, i as int)),
        1u64 << k >= 1,
        bit(w & ((1u64 << k) - 1) as u64, i as int) == (i < k && bit(w, i as int)),
{
    assert({
        &&& ((w | (1u64 << k)) >> i) & 1u64 == 1u64 <==> (i == k || (w >> i) & 1u64 == 1u64)
        &&& ((w & !(1u64 << k)) >> i) & 1u64 == 1u64 <==> (i != k && (w >> i) & 1u64 == 1u64)
        &&& 1u64 << k >= 1
        &&& ((w & ((1u64 << k) - 1) as u64) >> i) & 1u64 == 1u64 <==> (i < k && (w >> i) & 1u64
            == 1u64)
    }) by (bit_vector)
        requires
            k < 64,
            i < 64,
    ;
}

/// Bits of the two halves of a word, and of two halves put together.
pub proof fn lemma_halves(w: u64, lo: u32, hi: u32, i: u64)
    requires
        i < 32,
    ensures
        bit((w as u32) as u64, i as int) == bit(w, i as int),
        bit(((w >> 32) as u32) as u64, i as int) == bit(w, i + 32),
        bit((lo as u64) | ((hi as u64) << 32), i as int) == bit(lo as u64, i as int),
        bit((lo as u64) | ((hi as u64) << 32), i + 32) == bit(hi as u64, i as int),
{
    let j: u64 = (i + 32) as u64;
    assert({
        &&& ((((w as u32) as u64) >> i) & 1u64 == 1u64 <==> (w >> i) & 1u64 == 1u64)
        &&& (((((w >> 32) as u32) as u64) >> i) & 1u64 == 1u64 <==> (w >> j) & 1u64 == 1u64)
        &&& ((((lo as u64) | ((hi as u64) << 32)) >> i) & 1u64 == 1u64 <==> ((lo as u64) >> i)
            & 1u64 == 1u64)
        &&& ((((lo as u64) | ((hi as u64) << 32)) >> j) & 1u64 == 1u64 <==> ((hi as u64) >> i)
            & 1u64 == 1u64)
    }) by (bit_vector)
        requires
            i < 32,
            j == i + 32,
    ;
}

/// A word of zeros has no bit set.
pub proof fn lemma_zero_bit(i: u64)
    requires
        i < 64,
    ensures
        !bit(0, i as int),
{
    assert((0u64 >> i) & 1u64 == 0u64) by (bit_vector)
        requires
            i < 64,
    ;
}

/// Shifts and masks by small powers of two are quotients and remainders.
pub proof fn lemma_parts(v: u32)
    ensures
        v >> 1 == v / 2,
        v & 1 == v % 2,
        v >> 3 == v / 8,
        v & 15 == v % 16,
        v >> 5 == v / 32,
        v & 31 == v % 32,
        v >> 6 == v / 64,
        v & 63 == v % 64,
{
    assert(v >> 1 == v / 2 && v & 1 == v % 2 && v >> 3 == v / 8 && v & 15 == v % 16 && v >> 5 == v
        / 32 && v & 31 == v % 32 && v >> 6 == v / 64 && v & 63 == v % 64) by (bit_vector);
}

/// A factor with an inverse modulo `m` keeps numbers below `m` apart.
pub proof fn lemma_unit_factor(x: int, y: int, c: int, inv: int, m: int)
    requires
        0 <= x < m,
        0 <= y < m,
        (c * inv) % m == 1,
        (x * c) % m == (y * c) % m,
    ensures
        x == y,
{
    lemma_unit_undoes(x, c, inv, m);
    lemma_unit_undoes(y, c, inv, m);
}

proof fn lemma_unit_undoes(x: int, c: int, inv: int, m: int)
    requires
        0 <= x < m,
        (c * inv) % m == 1,
    ensures
        (((x * c) % m) * inv) % m == x,
{
    vstd::arithmetic::div_mod::lemma_mul_mod_noop_left(x * c, inv, m);
    assert((x * c) * inv == x * (c * inv)) by (nonlinear_arith);
    vstd::arithmetic::div_mod::lemma_mul_mod_noop_right(x, c * inv, m);
    vstd::arithmetic::div_mod::lemma_small_mod(x as nat, m as nat);
}

/// What is combined with one word stays apart, and zero changes nothing.
pub proof fn lemma_xor_keeps_apart(a: u32, b: u32, c: u32)
    ensures
        a ^ c == b ^ c ==> a == b,
        c ^ a == c ^ b ==> a == b,
        0u32 ^ a == a,
{
    assert((a ^ c == b ^ c ==> a == b) && (c ^ a == c ^ b ==> a == b) && 0u32 ^ a == a)
        by (bit_vector);
}

} // verus!
