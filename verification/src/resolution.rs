//! Grid resolutions of the form `8 · 4^k`.

use vstd::arithmetic::power2::{lemma_pow2_adds, pow2};
use vstd::bits::{lemma_u32_pow2_no_overflow, lemma_u32_shl_is_mul};
use vstd::prelude::*;

verus! {

/// Smallest representable resolution: `8³` (`k = 0`, a single leaf brick).
pub const MIN_RES: u32 = 8;

/// Largest resolution whose `8·4^k` value still fits in `u32`: `8 · 4¹⁴ = 2³¹`.
pub const MAX_RES: u32 = 0x8000_0000;

/// Largest internal-level count `k` with `8·4^k ≤ u32::MAX`.
pub const MAX_K: u32 = 14;

/// `4^k`.
pub open spec fn pow4(k: nat) -> nat
    decreases k,
{
    if k == 0 {
        1
    } else {
        4 * pow4((k - 1) as nat)
    }
}

/// A valid grid resolution: `voxels_per_axis = 8 · 4^k` for some `k ≤ 14`.
///
/// The `8` is the `8³` leaf brick (3 bits per axis) and each factor of `4` is
/// one `4³` internal level (2 bits per axis). `1024³` is not representable:
/// `1024 / 8 = 128` is not a power of four.
///
/// Construct via [`Resolution::new`] (checked) or
/// [`Resolution::from_internal_levels`].
#[derive(Debug, Clone, Copy, PartialEq, Eq, Structural, Hash)]
pub struct Resolution {
    /// Voxels per axis, equal to `8 · 4^k`.
    n: u32,
    /// Number of internal `4³` levels (`k`).
    k: u32,
}

/// Why a requested resolution is not representable by the structure.
#[derive(Debug, Clone, Copy, PartialEq, Eq, Structural)]
pub enum ResolutionError {
    /// Below the minimum `8³` grid (includes zero).
    TooSmall {
        /// The rejected value.
        requested: u32,
        /// The smallest representable resolution (`8`).
        minimum: u32,
    },
    /// Above the largest `8·4^k` that fits in `u32`.
    TooLarge {
        /// The rejected value.
        requested: u32,
        /// The largest representable resolution (`2³¹`).
        maximum: u32,
    },
    /// In range, but not of the form `8 · 4^k`. Reports the bracketing valid
    /// resolutions so the caller can round (this is how `1024 → 512 | 2048`).
    NotRepresentable {
        /// The rejected value.
        requested: u32,
        /// Largest valid resolution `< requested`.
        nearest_below: u32,
        /// Smallest valid resolution `> requested`.
        nearest_above: u32,
    },
}

impl Resolution {
    /// Voxels per axis.
    pub closed spec fn side(self) -> u32 {
        self.n
    }

    /// Number of internal `4³` levels.
    pub closed spec fn levels(self) -> u32 {
        self.k
    }

    /// The side is `8 · 4^levels` and at most `2³¹`.
    pub open spec fn wf(self) -> bool {
        &&& self.levels() <= MAX_K
        &&& self.side() == 8 * pow4(self.levels() as nat)
    }

    #[verifier::type_invariant]
    closed spec fn inv(self) -> bool {
        self.wf()
    }

    /// Checks `n` and constructs a [`Resolution`], or explains why `n` is
    /// invalid.
    ///
    /// Valid iff `n = 8 · 4^k` for some `k ∈ [0, 14]`.
    pub fn new(n: u32) -> (r: Result<Self, ResolutionError>)
        ensures
            r is Ok <==> exists|k: nat| k <= MAX_K && n == 8 * #[trigger] pow4(k),
            r matches Ok(res) ==> res.wf() && res.side() == n,
            r matches Err(ResolutionError::TooSmall { requested, minimum }) ==> n < MIN_RES
                && requested == n && minimum == MIN_RES,
            r matches Err(ResolutionError::TooLarge { requested, maximum }) ==> n > MAX_RES
                && requested == n && maximum == MAX_RES,
            r matches Err(
                ResolutionError::NotRepresentable { requested, nearest_below, nearest_above },
            ) ==> requested == n && exists|k: nat|
                k < MAX_K && nearest_below == 8 * #[trigger] pow4(k) && nearest_above == 8 * pow4(
                    k + 1,
                ) && nearest_below < n < nearest_above,
    {
        proof {
            lemma_pow4_range();
        }
        if n < MIN_RES {
            proof {
                assert forall|k: nat| k <= MAX_K implies n != 8 * #[trigger] pow4(k) by {
                    lemma_pow4_increases(0, k);
                }
            }
            return Err(ResolutionError::TooSmall { requested: n, minimum: MIN_RES });
        }
        if n > MAX_RES {
            proof {
                assert forall|k: nat| k <= MAX_K implies n != 8 * #[trigger] pow4(k) by {
                    lemma_pow4_increases(k, 14);
                }
            }
            return Err(ResolutionError::TooLarge { requested: n, maximum: MAX_RES });
        }
        // `r` walks 8, 32, 128, … until it reaches or passes `n`.
        let mut below: u32 = MIN_RES;
        let mut r: u32 = MIN_RES;
        let mut k: u32 = 0;
        while r < n
            invariant
                MIN_RES <= n <= MAX_RES,
                k <= MAX_K,
                r == 8 * pow4(k as nat),
                8 * pow4(14) == MAX_RES,
                k > 0 ==> below == 8 * pow4((k - 1) as nat) && below < n,
            decreases MAX_K - k,
        {
            proof {
                if k == MAX_K {
                    assert(false);
                }
                lemma_pow4_increases((k + 1) as nat, 14);
                assert(pow4((k + 1) as nat) == 4 * pow4(k as nat));
            }
            below = r;
            r = r * 4;
            k = k + 1;
        }
        if r == n {
            return Ok(Self { n, k });
        }
        proof {
            assert forall|j: nat| j <= MAX_K implies n != 8 * #[trigger] pow4(j) by {
                if j < k {
                    lemma_pow4_increases(j, (k - 1) as nat);
                } else {
                    lemma_pow4_increases(k as nat, j);
                }
            }
            let j: nat = (k - 1) as nat;
            assert(below == 8 * pow4(j) && r == 8 * pow4(j + 1));
        }
        Err(
            ResolutionError::NotRepresentable {
                requested: n,
                nearest_below: below,
                nearest_above: r,
            },
        )
    }

    /// Constructs the resolution with exactly `k` internal `4³` levels:
    /// `8 · 4^k`. Errors if `k > 14` (would overflow `u32`).
    pub fn from_internal_levels(k: u32) -> (r: Result<Self, ResolutionError>)
        ensures
            r matches Ok(res) ==> k <= MAX_K && res.wf() && res.levels() == k,
            r matches Err(e) ==> k > MAX_K && e == (ResolutionError::TooLarge {
                requested: u32::MAX,
                maximum: MAX_RES,
            }),
    {
        if k > MAX_K {
            return Err(ResolutionError::TooLarge { requested: u32::MAX, maximum: MAX_RES });
        }
        proof {
            lemma_side_is_pow2(k as nat);
            lemma_u32_pow2_no_overflow((3 + 2 * k) as nat);
            lemma_u32_shl_is_mul(1, (3 + 2 * k) as u32);
        }
        Ok(Self { n: 1 << (3 + 2 * k), k })
    }

    /// Voxels per axis (`n`).
    #[must_use]
    pub fn voxels_per_axis(self) -> (r: u32)
        ensures
            r == self.side(),
            self.wf(),
    {
        proof {
            use_type_invariant(&self);
        }
        self.n
    }

    /// Number of internal `4³` levels (`k`).
    #[must_use]
    pub fn internal_levels(self) -> (r: u32)
        ensures
            r == self.levels(),
            self.wf(),
    {
        proof {
            use_type_invariant(&self);
        }
        self.k
    }

    /// Number of *storage* levels: `k` internal levels plus the leaf brick.
    /// Excludes the voxel terminal.
    #[must_use]
    pub fn storage_levels(self) -> (r: u32)
        ensures
            r == self.levels() + 1,
    {
        proof {
            use_type_invariant(&self);
        }
        self.k + 1
    }

    /// Number of *traversal* levels: storage levels plus the voxel terminal.
    #[must_use]
    pub fn traversal_levels(self) -> (r: u32)
        ensures
            r == self.levels() + 2,
    {
        proof {
            use_type_invariant(&self);
        }
        self.k + 2
    }

    /// Total voxel count `n³`. Returned as `u128` because `n³` exceeds `u64`
    /// for the largest resolutions.
    #[must_use]
    pub fn total_voxels(self) -> (r: u128)
        ensures
            r == self.side() * self.side() * self.side(),
    {
        let n: u128 = self.n as u128;
        assert(n * n <= 0xffff_ffff * 0xffff_ffff && n * n * n <= 0xffff_ffff * 0xffff_ffff
            * 0xffff_ffff) by (nonlinear_arith)
            requires
                n <= 0xffff_ffff,
        ;
        n * n * n
    }

    /// `log₂(n)`: the number of base-voxel address bits per axis.
    #[must_use]
    pub fn axis_bits(self) -> (r: u32)
        ensures
            r == 3 + 2 * self.levels(),
            self.side() == pow2(r as nat),
    {
        proof {
            use_type_invariant(&self);
            lemma_side_is_pow2(self.k as nat);
        }
        3 + 2 * self.k
    }
}

/// `8 · 4^k = 2^(3 + 2k)`.
pub proof fn lemma_side_is_pow2(k: nat)
    ensures
        8 * pow4(k) == pow2(3 + 2 * k),
        pow4(k) == pow2(2 * k),
    decreases k,
{
    vstd::arithmetic::power2::lemma2_to64();
    if k > 0 {
        lemma_side_is_pow2((k - 1) as nat);
        lemma_pow2_adds(2, (2 * (k - 1)) as nat);
        lemma_pow2_adds(2, (3 + 2 * (k - 1)) as nat);
    }
}

/// Powers of four are at least one and grow with the exponent.
pub proof fn lemma_pow4_increases(a: nat, b: nat)
    requires
        a <= b,
    ensures
        1 <= pow4(a) <= pow4(b),
        a < b ==> 4 * pow4(a) <= pow4(b),
    decreases b,
{
    if a < b {
        lemma_pow4_increases(a, (b - 1) as nat);
    } else if a > 0 {
        lemma_pow4_increases((a - 1) as nat, (b - 1) as nat);
    }
}

/// The ends of the range of resolutions.
pub proof fn lemma_pow4_range()
    ensures
        8 * pow4(0) == MIN_RES,
        8 * pow4(14) == MAX_RES,
{
    reveal_with_fuel(pow4, 15);
}

/// Valid resolutions are determined by their side: `k` is the base-four
/// logarithm of `n / 8`.
pub proof fn law_side_determines_levels(a: Resolution, b: Resolution)
    requires
        a.wf(),
        b.wf(),
    ensures
        a.side() == b.side() <==> a.levels() == b.levels(),
        a.side() == b.side() <==> a == b,
{
    if a.levels() < b.levels() {
        lemma_pow4_increases(a.levels() as nat, b.levels() as nat);
    } else if b.levels() < a.levels() {
        lemma_pow4_increases(b.levels() as nat, a.levels() as nat);
    }
    lemma_pow4_increases(0, a.levels() as nat);
    lemma_pow4_increases(0, b.levels() as nat);
}

/// A resolution is accepted exactly where it is eight times a power of four, and
/// then reads back as it was given. One too small or too large is named so by
/// the bounds alone.
pub proof fn law_resolution_reads_back(n: u32, r: Result<Resolution, ResolutionError>, side: u32)
    requires
        call_ensures(Resolution::new, (n,), r),
        r matches Ok(res) ==> call_ensures(Resolution::voxels_per_axis, (res,), side),
    ensures
        r is Ok ==> side == n && 8 <= n <= 0x8000_0000,
        r is Ok <==> exists|k: nat| k <= 14 && n == 8 * #[trigger] pow4(k),
        n < 8 <==> r == Result::<Resolution, ResolutionError>::Err(
            ResolutionError::TooSmall { requested: n, minimum: 8 },
        ),
        n > 0x8000_0000 <==> r == Result::<Resolution, ResolutionError>::Err(
            ResolutionError::TooLarge { requested: n, maximum: 0x8000_0000 },
        ),
{
    lemma_pow4_range();
    if let Ok(res) = r {
        lemma_pow4_increases(0, res.levels() as nat);
        lemma_pow4_increases(res.levels() as nat, 14);
    }
    if let Err(ResolutionError::NotRepresentable { requested, nearest_below, nearest_above }) = r {
        let k = choose|k: nat|
            k < MAX_K && nearest_below == 8 * #[trigger] pow4(k) && nearest_above == 8 * pow4(k + 1)
                && nearest_below < n < nearest_above;
        lemma_pow4_increases(0, k);
        lemma_pow4_increases(k + 1, 14);
    }
}

/// The resolutions named beside one that cannot be represented are its
/// neighbours: both valid, one on each side, a factor of four apart, and no
/// valid one between them.
pub proof fn law_neighbours_bracket(
    n: u32,
    requested: u32,
    nearest_below: u32,
    nearest_above: u32,
    other: Resolution,
)
    requires
        call_ensures(
            Resolution::new,
            (n,),
            Err(
                ResolutionError::NotRepresentable { requested, nearest_below, nearest_above },
            ),
        ),
        other.wf(),
    ensures
        requested == n,
        nearest_below < n < nearest_above,
        nearest_above == 4 * nearest_below,
        other.side() <= nearest_below || other.side() >= nearest_above,
{
    let k = choose|k: nat|
        k < MAX_K && nearest_below == 8 * #[trigger] pow4(k) && nearest_above == 8 * pow4(k + 1)
            && nearest_below < n < nearest_above;
    let j = other.levels() as nat;
    if j <= k {
        lemma_pow4_increases(j, k);
    } else {
        lemma_pow4_increases(k + 1, j);
    }
    assert(pow4(k + 1) == 4 * pow4(k));
}

/// By its levels: each one more makes the grid four times as long, and there are
/// at most fourteen.
pub proof fn law_levels_make_resolutions(
    k: u32,
    r: Result<Resolution, ResolutionError>,
    s: Result<Resolution, ResolutionError>,
    levels: u32,
)
    requires
        k < u32::MAX,
        call_ensures(Resolution::from_internal_levels, (k,), r),
        call_ensures(Resolution::from_internal_levels, ((k + 1) as u32,), s),
        r matches Ok(a) ==> call_ensures(Resolution::internal_levels, (a,), levels),
    ensures
        r is Ok <==> k <= 14,
        r is Ok ==> levels == k,
        r matches Err(e) ==> e == (ResolutionError::TooLarge {
            requested: u32::MAX,
            maximum: 0x8000_0000,
        }),
        r matches Ok(a) ==> (k == 0 ==> a.side() == 8),
        r matches Ok(a) ==> (s matches Ok(b) ==> b.side() == 4 * a.side()),
{
    assert(pow4(0) == 1);
    assert(pow4((k + 1) as nat) == 4 * pow4(k as nat));
}

/// The counts of a resolution agree with its side: two to the address bits, its
/// cube in voxels, and one traversal level more than there are stored ones,
/// which are one more than the internal ones.
pub proof fn law_counts_follow_side(
    r: Resolution,
    side: u32,
    levels: u32,
    stored: u32,
    walked: u32,
    bits: u32,
    total: u128,
)
    requires
        r.wf(),
        call_ensures(Resolution::voxels_per_axis, (r,), side),
        call_ensures(Resolution::internal_levels, (r,), levels),
        call_ensures(Resolution::storage_levels, (r,), stored),
        call_ensures(Resolution::traversal_levels, (r,), walked),
        call_ensures(Resolution::axis_bits, (r,), bits),
        call_ensures(Resolution::total_voxels, (r,), total),
    ensures
        side == pow2(bits as nat),
        side == 8 * pow4(levels as nat),
        stored == levels + 1,
        walked == stored + 1,
        total == side * side * side,
        bits == 2 * stored + 1,
{
}

} // verus!
