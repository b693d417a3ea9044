//! Comparing a backend's results with a reference, and choosing the backend.

use crate::bits::{bit, bits_of, lemma_ones_agree, lemma_ones_monotone, lemma_ones_zero, ones};
use crate::coord::VoxelCoord;
use vstd::prelude::*;

verus! {

/// Which implementation to run.
#[derive(Debug, Clone, Copy, PartialEq, Eq, Structural)]
pub enum Backend {
    /// The CPU one.
    Cpu,
    /// The GPU one; an error if no adapter is present.
    Gpu,
    /// The GPU if an adapter is present, else the CPU.
    Auto,
}

/// How probing for a GPU went.
#[derive(Debug, Clone, Copy, PartialEq, Eq, Structural)]
pub enum Probe {
    /// A device is ready.
    Ready,
    /// No compatible adapter is present.
    NoAdapter,
    /// An adapter is present, but setting it up failed.
    Failed,
}

/// What to do.
#[derive(Debug, Clone, Copy, PartialEq, Eq, Structural)]
pub enum Choice {
    /// Run on the CPU.
    Cpu,
    /// Run on the GPU.
    Gpu,
    /// Report the probe's error.
    Fail,
}

impl Backend {
    /// Whether the choice depends on a GPU at all.
    #[must_use]
    pub fn needs_probe(self) -> (r: bool)
        ensures
            r == (self != Backend::Cpu),
    {
        match self {
            Backend::Cpu => false,
            Backend::Gpu => true,
            Backend::Auto => true,
        }
    }

    /// Chooses by how the probe went. Only a missing adapter falls back to the
    /// CPU, and only where that was left open.
    #[must_use]
    pub fn choose_by(self, probe: Probe) -> (r: Choice)
        ensures
            r == Choice::Cpu <==> self == Backend::Cpu || (self == Backend::Auto && probe
                == Probe::NoAdapter),
            r == Choice::Gpu <==> self != Backend::Cpu && probe == Probe::Ready,
    {
        match (self, probe) {
            (Backend::Cpu, _) => Choice::Cpu,
            (_, Probe::Ready) => Choice::Gpu,
            (Backend::Auto, Probe::NoAdapter) => Choice::Cpu,
            _ => Choice::Fail,
        }
    }
}

/// The outcome of a per-ray comparison.
#[derive(Debug, Clone, Copy, PartialEq, Eq, Structural)]
pub struct HitDiff {
    /// Rays that hit.
    pub hits: u64,
    /// Rays whose hit differs from the reference.
    pub mismatches: u64,
}

/// Hits among the first `n`.
pub open spec fn hit_count(got: Seq<Option<VoxelCoord>>, n: int) -> nat
    decreases n,
{
    if n <= 0 {
        0
    } else {
        hit_count(got, n - 1) + if got[n - 1] is Some {
            1nat
        } else {
            0
        }
    }
}

/// Differences among the first `n`.
pub open spec fn mismatch_count(
    got: Seq<Option<VoxelCoord>>,
    want: Seq<Option<VoxelCoord>>,
    n: int,
) -> nat
    decreases n,
{
    if n <= 0 {
        0
    } else {
        mismatch_count(got, want, n - 1) + if got[n - 1] != want[n - 1] {
            1nat
        } else {
            0
        }
    }
}

/// The length of the shorter of two lists.
pub open spec fn shorter(a: nat, b: nat) -> int {
    if a < b {
        a as int
    } else {
        b as int
    }
}

/// Whether two hits are the same.
fn same_hit(a: Option<VoxelCoord>, b: Option<VoxelCoord>) -> (r: bool)
    ensures
        r == (a == b),
{
    match (a, b) {
        (None, None) => true,
        (Some(x), Some(y)) => x == y,
        _ => false,
    }
}

/// Compares hits with the reference, ray by ray, as far as both go.
#[must_use]
pub fn diff_hits(got: &[Option<VoxelCoord>], want: &[Option<VoxelCoord>]) -> (r: HitDiff)
    ensures
        r.hits == hit_count(got@, shorter(got@.len(), want@.len())),
        r.mismatches == mismatch_count(got@, want@, shorter(got@.len(), want@.len())),
{
    let mut hits: u64 = 0;
    let mut mismatches: u64 = 0;
    let mut i: usize = 0;
    while i < got.len() && i < want.len()
        invariant
            i <= got@.len(),
            i <= want@.len(),
            hits <= i,
            mismatches <= i,
            hits == hit_count(got@, i as int),
            mismatches == mismatch_count(got@, want@, i as int),
        decreases got@.len() - i,
    {
        if !same_hit(got[i], want[i]) {
            mismatches = mismatches + 1;
        }
        if got[i].is_some() {
            hits = hits + 1;
        }
        i = i + 1;
    }
    HitDiff { hits, mismatches }
}

/// No mismatch is counted exactly where every ray agrees.
pub proof fn law_no_mismatch_is_equality(
    got: Seq<Option<VoxelCoord>>,
    want: Seq<Option<VoxelCoord>>,
    n: int,
)
    requires
        0 <= n,
    ensures
        mismatch_count(got, want, n) == 0 <==> forall|i: int|
            0 <= i < n ==> #[trigger] got[i] == want[i],
    decreases n,
{
    if n > 0 {
        law_no_mismatch_is_equality(got, want, n - 1);
        if mismatch_count(got, want, n) == 0 {
            assert forall|i: int| 0 <= i < n implies #[trigger] got[i] == want[i] by {
                if i == n - 1 {
                    assert(got[n - 1] == want[n - 1]);
                }
            }
        } else if forall|i: int| 0 <= i < n ==> #[trigger] got[i] == want[i] {
            assert(got[n - 1] == want[n - 1]);
        }
    }
}

/// The bits set in `a` and clear in `b`.
pub open spec fn missing_bits(a: u64, b: u64) -> Seq<bool> {
    Seq::new(64, |i: int| bit(a, i) && !bit(b, i))
}

/// Bits set in the first `n` words of `a` and clear in those of `b`.
pub open spec fn missing_count(a: Seq<u64>, b: Seq<u64>, n: int) -> nat
    decreases n,
{
    if n <= 0 {
        0
    } else {
        missing_count(a, b, n - 1) + ones(missing_bits(a[n - 1], b[n - 1]), 64)
    }
}

fn count_missing(a: u64, b: u64) -> (r: u32)
    ensures
        r == ones(missing_bits(a, b), 64),
        r <= 64,
{
    let w: u64 = a & !b;
    proof {
        assert forall|i: int| 0 <= i < 64 implies #[trigger] bits_of(w)[i] == missing_bits(
            a,
            b,
        )[i] by {
            let k = i as u64;
            assert(((a & !b) >> k) & 1u64 == 1u64 <==> ((a >> k) & 1u64 == 1u64 && !((b >> k) & 1u64
                == 1u64))) by (bit_vector)
                requires
                    k < 64,
            ;
        }
        lemma_ones_agree(bits_of(w), missing_bits(a, b), 64);
        lemma_ones_monotone(missing_bits(a, b), 0, 64);
    }
    w.count_ones()
}

/// Compares two occupancy bitsets: how many voxels only the first marks, and how
/// many only the second does, as far as both go.
#[must_use]
pub fn diff_words(a: &[u64], b: &[u64]) -> (r: (u64, u64))
    requires
        64 * shorter(a@.len(), b@.len()) <= u64::MAX,
    ensures
        r.0 == missing_count(a@, b@, shorter(a@.len(), b@.len())),
        r.1 == missing_count(b@, a@, shorter(a@.len(), b@.len())),
{
    let mut under: u64 = 0;
    let mut over: u64 = 0;
    let mut i: usize = 0;
    while i < a.len() && i < b.len()
        invariant
            64 * shorter(a@.len(), b@.len()) <= u64::MAX,
            i <= a@.len(),
            i <= b@.len(),
            under <= 64 * i,
            over <= 64 * i,
            under == missing_count(a@, b@, i as int),
            over == missing_count(b@, a@, i as int),
        decreases a@.len() - i,
    {
        under = under + count_missing(a[i], b[i]) as u64;
        over = over + count_missing(b[i], a[i]) as u64;
        i = i + 1;
    }
    (under, over)
}

/// No voxel is under-marked exactly where the second bitset is a superset of the
/// first.
pub proof fn law_no_under_marks_is_superset(a: Seq<u64>, b: Seq<u64>, n: int)
    requires
        0 <= n,
    ensures
        missing_count(a, b, n) == 0 <==> forall|i: int, k: int|
            0 <= i < n && 0 <= k < 64 && #[trigger] bit(a[i], k) ==> bit(b[i], k),
    decreases n,
{
    if n > 0 {
        law_no_under_marks_is_superset(a, b, n - 1);
        let m = missing_bits(a[n - 1], b[n - 1]);
        lemma_ones_zero(m, 64);
        if missing_count(a, b, n) == 0 {
            assert forall|i: int, k: int| 0 <= i < n && 0 <= k < 64 && #[trigger] bit(
                a[i],
                k,
            ) implies bit(b[i], k) by {
                if i == n - 1 {
                    assert(!m[k]);
                }
            }
        }
        if forall|i: int, k: int|
            0 <= i < n && 0 <= k < 64 && #[trigger] bit(a[i], k) ==> bit(b[i], k) {
            assert forall|k: int| 0 <= k < 64 implies !#[trigger] m[k] by {
                if bit(a[n - 1], k) {
                    assert(bit(b[n - 1], k));
                }
            }
        }
    }
}

/// The choice of backend: one that needs no probe does not heed it, a GPU that
/// was asked for is never replaced, and one left open is replaced only where
/// there is none. A set-up that failed is reported, not hidden.
pub proof fn law_choice_respects_request(
    b: Backend,
    p: Probe,
    q: Probe,
    needs: bool,
    c: Choice,
    d: Choice,
)
    requires
        call_ensures(Backend::needs_probe, (b,), needs),
        call_ensures(Backend::choose_by, (b, p), c),
        call_ensures(Backend::choose_by, (b, q), d),
    ensures
        !needs ==> c == d && c == Choice::Cpu,
        needs <==> b != Backend::Cpu,
        b == Backend::Gpu ==> c != Choice::Cpu,
        b == Backend::Auto && c == Choice::Cpu ==> p == Probe::NoAdapter,
        needs && p == Probe::Ready ==> c == Choice::Gpu,
        needs && p == Probe::Failed ==> c == Choice::Fail,
        c == Choice::Gpu ==> p == Probe::Ready,
        b == Backend::Gpu && p == Probe::NoAdapter ==> c == Choice::Fail,
        b == Backend::Auto && p == Probe::NoAdapter ==> c == Choice::Cpu,
{
}

/// Changing one ray's result changes the counts by that ray: a hit more or less,
/// a mismatch more or less, and nothing where it counts the same as before.
pub proof fn law_each_ray_counts_once(
    got: Seq<Option<VoxelCoord>>,
    want: Seq<Option<VoxelCoord>>,
    i: int,
    x: Option<VoxelCoord>,
    n: int,
)
    requires
        0 <= i < n <= got.len(),
    ensures
        hit_count(got.update(i, x), n) + (if got[i] is Some {
            1int
        } else {
            0
        }) == hit_count(got, n) + (if x is Some {
            1int
        } else {
            0
        }),
        mismatch_count(got.update(i, x), want, n) + (if got[i] != want[i] {
            1int
        } else {
            0
        }) == mismatch_count(got, want, n) + (if x != want[i] {
            1int
        } else {
            0
        }),
    decreases n,
{
    let now = got.update(i, x);
    if i < n - 1 {
        law_each_ray_counts_once(got, want, i, x, n - 1);
    } else {
        lemma_counts_agree(got, now, want, n - 1);
    }
}

proof fn lemma_counts_agree(
    a: Seq<Option<VoxelCoord>>,
    b: Seq<Option<VoxelCoord>>,
    want: Seq<Option<VoxelCoord>>,
    n: int,
)
    requires
        forall|i: int| 0 <= i < n ==> a[i] == b[i],
    ensures
        hit_count(a, n) == hit_count(b, n),
        mismatch_count(a, want, n) == mismatch_count(b, want, n),
    decreases n,
{
    if n > 0 {
        lemma_counts_agree(a, b, want, n - 1);
        assert(a[n - 1] == b[n - 1]);
    }
}

/// No hit is counted exactly where every ray missed, and comparing two results is
/// the same either way round.
pub proof fn law_diff_is_symmetric(
    got: Seq<Option<VoxelCoord>>,
    want: Seq<Option<VoxelCoord>>,
    n: int,
)
    requires
        0 <= n,
    ensures
        mismatch_count(got, want, n) == mismatch_count(want, got, n),
        mismatch_count(got, want, n) <= n,
        hit_count(got, n) <= n,
        hit_count(got, n) == 0 <==> forall|i: int| 0 <= i < n ==> (#[trigger] got[i]) is None,
        hit_count(got, n) == n <==> forall|i: int| 0 <= i < n ==> (#[trigger] got[i]) is Some,
    decreases n,
{
    if n > 0 {
        law_diff_is_symmetric(got, want, n - 1);
        if forall|i: int| 0 <= i < n ==> (#[trigger] got[i]) is None {
            assert(got[n - 1] is None);
        }
        if forall|i: int| 0 <= i < n ==> (#[trigger] got[i]) is Some {
            assert(got[n - 1] is Some);
        }
    }
}

/// Every result of a comparison is counted as far as both lists go: none is
/// mismatched exactly where they agree that far, and none hit exactly where all
/// missed.
pub proof fn law_diff_reaches_the_shorter(
    got: &[Option<VoxelCoord>],
    want: &[Option<VoxelCoord>],
    r: HitDiff,
)
    requires
        call_ensures(diff_hits, (got, want), r),
    ensures
        r.mismatches == 0 <==> forall|i: int|
            0 <= i < got@.len() && i < want@.len() ==> #[trigger] got@[i] == want@[i],
        r.hits == 0 <==> forall|i: int|
            0 <= i < got@.len() && i < want@.len() ==> (#[trigger] got@[i]) is None,
        r.hits <= got@.len() && r.hits <= want@.len(),
        r.mismatches <= got@.len() && r.mismatches <= want@.len(),
{
    let n = shorter(got@.len(), want@.len());
    law_no_mismatch_is_equality(got@, want@, n);
    law_diff_is_symmetric(got@, want@, n);
}

/// The voxels that only one of two bitsets marks, each counted once: between the
/// two counts and the voxels both mark, every marked voxel is accounted for.
pub proof fn law_marks_are_accounted_for(a: Seq<u64>, b: Seq<u64>, n: int)
    requires
        0 <= n,
    ensures
        mark_count(a, n) + missing_count(b, a, n) == mark_count(b, n) + missing_count(a, b, n),
        missing_count(a, b, n) <= mark_count(a, n),
    decreases n,
{
    if n > 0 {
        law_marks_are_accounted_for(a, b, n - 1);
        lemma_word_marks(a[n - 1], b[n - 1], 64);
    }
}

/// Voxels marked in the first `n` words.
pub open spec fn mark_count(a: Seq<u64>, n: int) -> nat
    decreases n,
{
    if n <= 0 {
        0
    } else {
        mark_count(a, n - 1) + ones(bits_of(a[n - 1]), 64)
    }
}

proof fn lemma_word_marks(a: u64, b: u64, n: int)
    requires
        0 <= n <= 64,
    ensures
        ones(bits_of(a), n) + ones(missing_bits(b, a), n) == ones(bits_of(b), n) + ones(
            missing_bits(a, b),
            n,
        ),
        ones(missing_bits(a, b), n) <= ones(bits_of(a), n),
    decreases n,
{
    if n > 0 {
        lemma_word_marks(a, b, n - 1);
    }
}

/// A comparison of bitsets counts both ways: none is under-marked exactly where
/// the second holds the first, none over-marked exactly where the first holds
/// the second, and with neither they are the same as far as both go.
pub proof fn law_diff_words_both_ways(a: &[u64], b: &[u64], r: (u64, u64), i: int, k: int)
    requires
        64 * shorter(a@.len(), b@.len()) <= u64::MAX,
        call_ensures(diff_words, (a, b), r),
        0 <= i < a@.len(),
        i < b@.len(),
        0 <= k < 64,
    ensures
        r.0 == 0 ==> (bit(a@[i], k) ==> bit(b@[i], k)),
        r.1 == 0 ==> (bit(b@[i], k) ==> bit(a@[i], k)),
        bit(a@[i], k) && !bit(b@[i], k) ==> r.0 > 0,
        bit(b@[i], k) && !bit(a@[i], k) ==> r.1 > 0,
{
    let n = shorter(a@.len(), b@.len());
    law_no_under_marks_is_superset(a@, b@, n);
    law_no_under_marks_is_superset(b@, a@, n);
}

} // verus!
