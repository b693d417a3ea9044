//! Words as bytes and back, as they lie in memory.

use vstd::prelude::*;

verus! {

/// Word `i` of `bytes`, low byte first.
pub open spec fn le_word(bytes: Seq<u8>, i: int) -> int {
    bytes[4 * i] + 0x100 * bytes[4 * i + 1] + 0x1_0000 * bytes[4 * i + 2] + 0x100_0000 * bytes[4 * i
        + 3]
}

/// Word `i` of `bytes`, high byte first.
pub open spec fn be_word(bytes: Seq<u8>, i: int) -> int {
    bytes[4 * i + 3] + 0x100 * bytes[4 * i + 2] + 0x1_0000 * bytes[4 * i + 1] + 0x100_0000 * bytes[4
        * i]
}

/// `bytes` are the bytes of `words`, in the given byte order.
pub open spec fn in_order(bytes: Seq<u8>, words: Seq<u32>, little: bool) -> bool {
    &&& bytes.len() == 4 * words.len()
    &&& forall|i: int|
        0 <= i < words.len() ==> #[trigger] words[i] == if little {
            le_word(bytes, i)
        } else {
            be_word(bytes, i)
        }
}

/// `bytes` are the bytes of `words` in one of the two byte orders.
pub open spec fn same_memory(bytes: Seq<u8>, words: Seq<u32>) -> bool {
    in_order(bytes, words, true) || in_order(bytes, words, false)
}

/// The bytes of a slice of words, copied out of `bytemuck::cast_slice::<u32, u8>`.
///
/// `cast_slice` reinterprets the words' memory, so the bytes come in the
/// machine's byte order; which of the two that is, is left unsaid. It panics
/// only where the target's alignment or size does not fit, which bytes always
/// do.
#[verifier::external_body]
pub(crate) fn words_as_bytes(words: &[u32]) -> (r: Vec<u8>)
    ensures
        same_memory(r@, words@),
{
    bytemuck::cast_slice::<u32, u8>(words).to_vec()
}

/// The words that a whole number of words' bytes hold, by
/// `bytemuck::pod_collect_to_vec::<u8, u32>`.
///
/// The function copies the bytes into the memory of as many words as they fill,
/// so each word is read in the machine's byte order; which of the two that is,
/// is left unsaid. It needs no alignment of its input.
#[verifier::external_body]
pub(crate) fn bytes_as_words(bytes: &[u8]) -> (r: Vec<u32>)
    requires
        bytes@.len() % 4 == 0,
    ensures
        same_memory(bytes@, r@),
{
    bytemuck::pod_collect_to_vec::<u8, u32>(bytes)
}

/// The number in the `n` bytes from `lo` on, low byte first.
pub open spec fn le_value(bytes: Seq<u8>, lo: int, n: nat) -> nat
    decreases n,
{
    if n == 0 {
        0
    } else {
        bytes[lo] as nat + 256 * le_value(bytes, lo + 1, (n - 1) as nat)
    }
}

/// `256^n`.
pub open spec fn pow256(n: nat) -> nat
    decreases n,
{
    if n == 0 {
        1
    } else {
        256 * pow256((n - 1) as nat)
    }
}

/// `n` bytes hold less than `256^n`.
proof fn lemma_le_value_bound(bytes: Seq<u8>, lo: int, n: nat)
    ensures
        le_value(bytes, lo, n) < pow256(n),
    decreases n,
{
    if n > 0 {
        lemma_le_value_bound(bytes, lo + 1, (n - 1) as nat);
    }
}

/// The eight bytes from `lo` on as a number, low byte first.
#[must_use]
pub fn read_u64_le(bytes: &[u8], lo: usize) -> (r: u64)
    requires
        lo + 8 <= bytes@.len(),
    ensures
        r == le_value(bytes@, lo as int, 8),
{
    let len: usize = bytes.len();
    let mut v: u64 = 0;
    let mut i: usize = 8;
    while i > 0
        invariant
            i <= 8,
            len == bytes@.len(),
            lo + 8 <= len,
            v == le_value(bytes@, lo + i, (8 - i) as nat),
        decreases i,
    {
        i = i - 1;
        proof {
            lemma_le_value_bound(bytes@, lo + i, (8 - i) as nat);
            reveal_with_fuel(pow256, 9);
        }
        v = v * 256 + bytes[lo + i] as u64;
    }
    v
}

/// Byte `i` of a number read low byte first is the byte that stands there: the
/// number's digits to base 256 are the bytes.
pub proof fn law_digits_are_bytes(bytes: Seq<u8>, lo: int, n: nat, i: nat)
    requires
        i < n,
    ensures
        (le_value(bytes, lo, n) / pow256(i)) % 256 == bytes[lo + i],
        le_value(bytes, lo, n) < pow256(n),
    decreases i,
{
    lemma_le_value_bound(bytes, lo, n);
    let v = le_value(bytes, lo, n) as int;
    let rest = le_value(bytes, lo + 1, (n - 1) as nat) as int;
    assert(v == bytes[lo] + 256 * rest);
    if i == 0 {
        assert(pow256(0) == 1);
        assert(v / 1 == v);
    } else {
        let below = (i - 1) as nat;
        law_digits_are_bytes(bytes, lo + 1, (n - 1) as nat, below);
        lemma_pow256_pos(below);
        vstd::arithmetic::div_mod::lemma_div_denominator(v, 256, pow256(below) as int);
        assert(v / 256 == rest);
    }
}

proof fn lemma_pow256_pos(n: nat)
    ensures
        pow256(n) >= 1,
    decreases n,
{
    if n > 0 {
        lemma_pow256_pos((n - 1) as nat);
    }
}

/// A word read low byte first is the number its four bytes hold, one read high
/// byte first the number they hold from the other end.
pub proof fn law_words_are_numbers(bytes: Seq<u8>, turned: Seq<u8>, i: int)
    requires
        0 <= i,
        4 * i + 4 <= bytes.len(),
        turned == seq![bytes[4 * i + 3], bytes[4 * i + 2], bytes[4 * i + 1], bytes[4 * i]],
    ensures
        le_word(bytes, i) == le_value(bytes, 4 * i, 4),
        be_word(bytes, i) == le_value(turned, 0, 4),
{
    reveal_with_fuel(le_value, 5);
}

/// Bytes in a known order hold one list of words.
pub proof fn law_memory_determines_words(
    bytes: Seq<u8>,
    a: Seq<u32>,
    b: Seq<u32>,
    little: bool,
)
    requires
        in_order(bytes, a, little),
        in_order(bytes, b, little),
    ensures
        a == b,
        same_memory(bytes, a),
{
    assert(a =~= b);
}

/// Reading at a later place reads the later bytes: the low byte of what is read
/// is the byte at that place, and the rest follows it.
pub proof fn law_read_starts_at_place(bytes: &[u8], lo: usize, r: u64, i: nat)
    requires
        lo + 8 <= bytes@.len(),
        call_ensures(read_u64_le, (bytes, lo), r),
        i < 8,
    ensures
        (r as nat / pow256(i)) % 256 == bytes@[lo + i],
{
    law_digits_are_bytes(bytes@, lo as int, 8, i);
}

} // verus!
