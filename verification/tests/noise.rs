//! Gradient noise over the library's lattice hash and gradients: the
//! interpolation is done here in floating point.

use voxel_mip::noise::{gradient, lattice_hash, octave_seed, Gradient};

fn grad(hash: u32, offset: [f64; 3]) -> f64 {
    let g = gradient(hash);
    let u = if g.neg_u { -offset[g.u] } else { offset[g.u] };
    let v = if g.neg_v { -offset[g.v] } else { offset[g.v] };
    u + v
}

fn fade(t: f64) -> f64 {
    t * t * t * (t * (t * 6.0 - 15.0) + 10.0)
}

fn lerp(a: f64, b: f64, t: f64) -> f64 {
    a + t * (b - a)
}

fn perlin3(seed: u32, p: [f64; 3]) -> f64 {
    let floor = [p[0].floor(), p[1].floor(), p[2].floor()];
    let (ix, iy, iz) = (floor[0] as i64, floor[1] as i64, floor[2] as i64);
    let f = [p[0] - floor[0], p[1] - floor[1], p[2] - floor[2]];
    let (u, v, w) = (fade(f[0]), fade(f[1]), fade(f[2]));
    let g = |dx: i64, dy: i64, dz: i64| {
        grad(
            lattice_hash(seed, ix + dx, iy + dy, iz + dz),
            [f[0] - dx as f64, f[1] - dy as f64, f[2] - dz as f64],
        )
    };
    let x00 = lerp(g(0, 0, 0), g(1, 0, 0), u);
    let x10 = lerp(g(0, 1, 0), g(1, 1, 0), u);
    let x01 = lerp(g(0, 0, 1), g(1, 0, 1), u);
    let x11 = lerp(g(0, 1, 1), g(1, 1, 1), u);
    lerp(lerp(x00, x10, v), lerp(x01, x11, v), w)
}

#[derive(Clone, Copy)]
struct Fractal {
    octaves: u32,
    lacunarity: f64,
    gain: f64,
    ridged: bool,
}

const FBM: Fractal = Fractal { octaves: 5, lacunarity: 2.0, gain: 0.5, ridged: false };
const RIDGED: Fractal = Fractal { octaves: 5, lacunarity: 2.0, gain: 0.5, ridged: true };

fn fractal(seed: u32, p: [f64; 3], f: Fractal) -> f64 {
    let (mut amp, mut freq, mut sum, mut norm) = (1.0, 1.0, 0.0, 0.0);
    for o in 0..f.octaves {
        let off = f64::from(o);
        let at = [
            p[0] * freq + off * 17.13,
            p[1] * freq - off * 9.71,
            p[2] * freq + off * 5.37,
        ];
        let n = perlin3(octave_seed(seed, o), at);
        sum += amp * if f.ridged { (1.0 - n.abs()) * (1.0 - n.abs()) } else { n };
        norm += amp;
        amp *= f.gain;
        freq *= f.lacunarity;
    }
    let mean = sum / norm;
    if f.ridged {
        mean * 2.0 - 1.0
    } else {
        mean
    }
}

fn domain_warp(seed: u32, p: [f64; 3], amp: f64, f: Fractal) -> [f64; 3] {
    let wx = fractal(seed ^ 0x1111_1111, [p[0] + 1.7, p[1] + 9.2, p[2] + 3.3], f);
    let wy = fractal(seed ^ 0x2222_2222, [p[0] - 5.1, p[1] + 2.8, p[2] - 7.4], f);
    let wz = fractal(seed ^ 0x3333_3333, [p[0] + 8.6, p[1] - 4.5, p[2] + 1.9], f);
    [p[0] + amp * wx, p[1] + amp * wy, p[2] + amp * wz]
}

#[test]
fn the_lattice_hash_is_exact() {
    assert_eq!(lattice_hash(0, 0, 0, 0), 0x0000_0000);
    assert_eq!(lattice_hash(42, 3, -8, 12), 0xce14_161a);
    assert_eq!(lattice_hash(7, -1, -1, -1), 0xab0a_a40a);
    assert_eq!(lattice_hash(1, 5, 6, 7), 0x6dc6_ec0f);
}

#[test]
fn the_lattice_hash_wraps_at_32_bits() {
    assert_eq!(lattice_hash(1, (1i64 << 32) + 5, 6, 7), lattice_hash(1, 5, 6, 7));
}

#[test]
fn gradients_are_the_improved_noise_table() {
    let pairs = [
        (0, 1), (0, 1), (0, 1), (0, 1), (0, 2), (0, 2), (0, 2), (0, 2),
        (1, 2), (1, 2), (1, 2), (1, 2), (1, 0), (1, 2), (1, 0), (1, 2),
    ];
    for h in 0..64u32 {
        let (u, v) = pairs[(h % 16) as usize];
        let want = Gradient { u, neg_u: h & 1 == 1, v, neg_v: h & 2 == 2 };
        assert_eq!(gradient(h), want, "{h}");
    }
}

#[test]
fn octave_seeds_step_by_the_golden_ratio() {
    assert_eq!(octave_seed(42, 0), 42);
    assert_eq!(octave_seed(42, 3), 0xdaa6_6d55);
    assert_eq!(octave_seed(u32::MAX, 1), 0x9e37_79b8);
}

#[test]
fn perlin_is_deterministic() {
    let p = [3.25, -7.5, 12.125];
    assert_eq!(perlin3(42, p), perlin3(42, p));
    assert_ne!(perlin3(42, p), perlin3(43, p), "seed must matter");
}

#[test]
fn perlin_is_roughly_unit_range_and_centered() {
    let mut min = f64::INFINITY;
    let mut max = f64::NEG_INFINITY;
    let mut sum = 0.0;
    let mut count = 0.0;
    for zi in 0..20 {
        for yi in 0..20 {
            for xi in 0..20 {
                let p = [
                    f64::from(xi) * 0.37,
                    f64::from(yi) * 0.37,
                    f64::from(zi) * 0.37,
                ];
                let n = perlin3(7, p);
                min = min.min(n);
                max = max.max(n);
                sum += n;
                count += 1.0;
            }
        }
    }
    assert!(min > -1.2 && max < 1.2, "range [{min}, {max}] escaped ~[-1,1]");
    assert!((sum / count).abs() < 0.15, "mean {} not near 0", sum / count);
}

#[test]
fn perlin_is_continuous() {
    let p = [4.2, 1.1, -3.7];
    let q = [p[0] + 1e-4, p[1], p[2]];
    assert!((perlin3(1, p) - perlin3(1, q)).abs() < 1e-2);
}

#[test]
fn perlin_is_zero_on_the_lattice() {
    assert!(perlin3(99, [3.0, -2.0, 5.0]).abs() < 1e-12);
}

#[test]
fn fractal_variants_stay_in_range() {
    for zi in 0..12 {
        for yi in 0..12 {
            for xi in 0..12 {
                let p = [
                    f64::from(xi) * 0.5,
                    f64::from(yi) * 0.5,
                    f64::from(zi) * 0.5,
                ];
                let a = fractal(3, p, FBM);
                let b = fractal(3, p, RIDGED);
                assert!(a > -1.3 && a < 1.3, "fbm {a} out of range");
                assert!(b > -1.3 && b < 1.3, "ridged {b} out of range");
            }
        }
    }
}

#[test]
fn domain_warp_moves_the_point() {
    let p = [2.0, 3.0, 4.0];
    let w = domain_warp(5, p, 0.5, FBM);
    let moved = (0..3).any(|i| (w[i] - p[i]).abs() > 1e-6);
    assert!(moved, "warp should displace the point");
    assert_eq!(domain_warp(5, p, 0.0, FBM), p);
}
