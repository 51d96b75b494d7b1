//! The quantizers and the sign vectors.
#![allow(dead_code)]

use std::rc::Rc;

use ndarray::{Array1, Array2};
use rand::SeedableRng;
use rand_chacha::ChaCha8Rng;
use rand_distr::{Distribution, Normal};
use turboquant::compression::centroids::{compute_boundaries, compute_lloyd_max_centroids, refine_centroids};
use turboquant::compression::lloyd_max::{LloydMaxQuantizer, ScalarQuantVector};
use turboquant::compression::polarquant::{PolarQuantizer, PolarVector};
use turboquant::compression::qjl::{pack_signs, BitVector, QjlCompressor};
use turboquant::compression::turboquant_mse::{get_codebook, TqMseCompressor, TqMseVector};
use turboquant::scalar::Scalar;

fn scalar(x: f32) -> Scalar {
    Scalar::from_bits(x.to_bits())
}

fn float(s: Scalar) -> f32 {
    f32::from_bits(s.to_bits())
}

fn scalars(v: &[f32]) -> Vec<Scalar> {
    v.iter().map(|&x| scalar(x)).collect()
}

fn floats(v: &[Scalar]) -> Vec<f32> {
    v.iter().map(|&s| float(s)).collect()
}

fn inner(a: &[Scalar], b: &[Scalar]) -> Scalar {
    scalar(a.iter().zip(b).map(|(x, y)| float(*x) * float(*y)).sum())
}

fn norm_of(v: &[f32]) -> f32 {
    v.iter().map(|x| x * x).sum::<f32>().sqrt()
}

fn random_unit_vec(dim: usize, rng: &mut ChaCha8Rng) -> Vec<f32> {
    let normal = Normal::new(0.0, 1.0f64).unwrap();
    let raw: Vec<f32> = (0..dim).map(|_| normal.sample(rng) as f32).collect();
    let norm = norm_of(&raw);
    raw.iter().map(|v| v / norm).collect()
}

/// A random orthogonal matrix.
fn orthogonal(dim: usize, seed: u64) -> Array2<f32> {
    let mut rng = ChaCha8Rng::seed_from_u64(seed);
    let normal = Normal::new(0.0, 1.0f64).unwrap();
    let data: Vec<f32> = (0..dim * dim).map(|_| normal.sample(&mut rng) as f32).collect();
    let mut q = Array2::from_shape_vec((dim, dim), data).unwrap();
    for i in 0..dim {
        let norm: f32 = q.column(i).dot(&q.column(i)).sqrt();
        if norm > 1e-10 {
            let inverse = 1.0 / norm;
            for r in 0..dim {
                q[[r, i]] *= inverse;
            }
        }
        for j in (i + 1)..dim {
            let proj: f32 = q.column(i).dot(&q.column(j));
            for r in 0..dim {
                q[[r, j]] -= proj * q[[r, i]];
            }
        }
    }
    q
}

/// A matrix of independent normal entries.
fn gaussian(dim: usize, seed: u64) -> Array2<f32> {
    let mut rng = ChaCha8Rng::seed_from_u64(seed);
    let normal = Normal::new(0.0, (1.0 / dim as f64).sqrt()).unwrap();
    let data: Vec<f32> = (0..dim * dim).map(|_| normal.sample(&mut rng) as f32).collect();
    Array2::from_shape_vec((dim, dim), data).unwrap()
}

fn times(m: &Array2<f32>, v: &[Scalar]) -> Vec<Scalar> {
    let x = Array1::from_vec(floats(v));
    scalars(&m.dot(&x).to_vec())
}

fn times_transposed(m: &Array2<f32>, v: &[Scalar]) -> Vec<f32> {
    let x = Array1::from_vec(floats(v));
    m.t().dot(&x).to_vec()
}

/// The arithmetic that the compressors are given.
#[derive(Clone)]
struct Arithmetic {
    dim: usize,
    rotation: Rc<Array2<f32>>,
    projection: Rc<Array2<f32>>,
}

impl Arithmetic {
    fn new(dim: usize, rotation_seed: u64, qjl_seed: u64) -> Arithmetic {
        Arithmetic {
            dim,
            rotation: Rc::new(orthogonal(dim, rotation_seed)),
            projection: Rc::new(gaussian(dim, qjl_seed)),
        }
    }

    fn rotate_unit(&self, v: &[Scalar]) -> (Vec<Scalar>, Scalar) {
        let raw = floats(v);
        let norm = norm_of(&raw);
        let unit: Vec<f32> = if norm > 1e-10 {
            raw.iter().map(|x| x / norm).collect()
        } else {
            vec![0.0; self.dim]
        };
        (times(&self.rotation, &scalars(&unit)), scalar(norm))
    }

    fn rotate(&self, v: &[Scalar]) -> Vec<Scalar> {
        times(&self.rotation, v)
    }

    fn project(&self, v: &[Scalar]) -> Vec<Scalar> {
        times(&self.projection, v)
    }

    fn residual(&self, a: &[Scalar], b: &[Scalar]) -> (Vec<Scalar>, Scalar) {
        let rest: Vec<f32> = a.iter().zip(b).map(|(x, y)| float(*x) - float(*y)).collect();
        let norm = norm_of(&rest);
        (scalars(&rest), scalar(norm))
    }

    fn restore(&self, y: &[Scalar], norm: Scalar) -> Vec<Scalar> {
        let x = times_transposed(&self.rotation, y);
        x.iter().map(|v| scalar(v * float(norm))).collect()
    }

    fn signed(&self, sum: Scalar, positive: bool, p: Scalar) -> Scalar {
        let sign = if positive { 1.0f32 } else { -1.0f32 };
        scalar(float(sum) + sign * float(p))
    }

    fn weighted(&self, norm: Scalar, sum: Scalar) -> Scalar {
        let scale = float(norm) * (std::f32::consts::PI / (2.0 * self.dim as f32)).sqrt();
        scalar(scale * float(sum))
    }

    fn whole(&self, norm: Scalar, similarity: Scalar, correction: Scalar) -> Scalar {
        scalar(float(norm) * (float(similarity) + float(correction)))
    }
}

fn gaussian_pdf(x: f32, sigma: f32) -> f32 {
    let coeff = 1.0 / (sigma * (2.0 * std::f32::consts::PI).sqrt());
    let exponent = -(x * x) / (2.0 * sigma * sigma);
    coeff * exponent.exp()
}

fn gaussian_conditional_mean(a: f32, b: f32, sigma: f32, n_points: usize) -> (f64, f64) {
    let h = (b - a) as f64 / n_points as f64;
    let mut num = 0.0f64;
    let mut den = 0.0f64;
    for i in 0..=n_points {
        let x = a as f64 + i as f64 * h;
        let p = gaussian_pdf(x as f32, sigma) as f64;
        let weight = if i == 0 || i == n_points { 0.5 } else { 1.0 };
        num += weight * x * p;
        den += weight * p;
    }
    (num * h, den * h)
}

fn spaced(range: f32, i: usize, n: usize) -> Scalar {
    scalar(-range + (2.0 * range) * (i as f32 + 0.5) / n as f32)
}

fn halfway(a: Scalar, b: Scalar) -> Scalar {
    scalar(0.5 * (float(a) + float(b)))
}

fn mean_between(sigma: f32, lo: Scalar, hi: Scalar) -> Option<Scalar> {
    let (num, den) = gaussian_conditional_mean(float(lo), float(hi), sigma, 200);
    if den.abs() > 1e-15 {
        Some(scalar((num / den) as f32))
    } else {
        None
    }
}

fn widened(most: Scalar, new: Scalar, old: Scalar) -> Scalar {
    scalar(float(most).max((float(new) - float(old)).abs()))
}

fn centroids_for(sigma: f32, bits: u8) -> Vec<f32> {
    let range = 5.0 * sigma;
    floats(&compute_lloyd_max_centroids(
        bits,
        scalar(-range),
        scalar(range),
        &|i: usize, n: usize| spaced(range, i, n),
        &halfway,
        &|lo: Scalar, hi: Scalar| mean_between(sigma, lo, hi),
        &widened,
    ))
}

fn quantizer(dim: usize, bits: u8) -> LloydMaxQuantizer {
    let sigma = 1.0 / (dim as f32).sqrt();
    let range = 5.0 * sigma;
    LloydMaxQuantizer::new(
        dim,
        bits,
        scalar(-range),
        scalar(range),
        |i: usize, n: usize| spaced(range, i, n),
        halfway,
        |lo: Scalar, hi: Scalar| mean_between(sigma, lo, hi),
        widened,
    )
}

fn polar_quantizer(dim: usize, angle_bits: u8, radius_bits: u8) -> PolarQuantizer {
    PolarQuantizer::new(dim, angle_bits, radius_bits, scalar(4.0 / (dim as f32).sqrt()))
}

fn to_levels(max_radius: f32, y0: Scalar, y1: Scalar, turn: u32, top: u32) -> (u32, u8) {
    let (y0, y1) = (float(y0), float(y1));
    let r = (y0 * y0 + y1 * y1).sqrt();
    let theta = y1.atan2(y0);
    let theta_norm = (theta + std::f32::consts::PI) / (2.0 * std::f32::consts::PI);
    let r_norm = (r / max_radius).clamp(0.0, 1.0);
    ((theta_norm * turn as f32).round() as u32, (r_norm * top as f32).round() as u8)
}

fn from_levels(max_radius: f32, angle: u8, radius: u8, turn: u32, top: u32) -> (Scalar, Scalar) {
    let theta = (angle as f32 / turn as f32) * 2.0 * std::f32::consts::PI - std::f32::consts::PI;
    let r = (radius as f32 / top as f32) * max_radius;
    (scalar(r * theta.cos()), scalar(r * theta.sin()))
}

fn lloyd_similarity(lm: &LloydMaxQuantizer, query: &[f32], v: &ScalarQuantVector) -> f32 {
    float(lm.similarity_raw(&scalars(query), v, &inner))
}

fn polar_compress(pq: &PolarQuantizer, v: &[f32]) -> PolarVector {
    let max_radius = float(pq.max_radius());
    pq.compress(
        &scalars(v),
        |y0: Scalar, y1: Scalar, t: u32, m: u32| to_levels(max_radius, y0, y1, t, m),
    )
}

fn polar_decompress(pq: &PolarQuantizer, pv: &PolarVector) -> Vec<f32> {
    let max_radius = float(pq.max_radius());
    floats(&pq.decompress(pv, &|a: u8, b: u8, t: u32, m: u32| from_levels(max_radius, a, b, t, m)))
}

fn polar_similarity(pq: &PolarQuantizer, a: &PolarVector, b: &PolarVector) -> f32 {
    let max_radius = float(pq.max_radius());
    float(pq.similarity(a, b, |s: Scalar, x: (u8, u8), y: (u8, u8), turn: u32, top: u32| {
        let r_a = (x.1 as f32 / top as f32) * max_radius;
        let r_b = (y.1 as f32 / top as f32) * max_radius;
        let theta_a = (x.0 as f32 / turn as f32) * 2.0 * std::f32::consts::PI;
        let theta_b = (y.0 as f32 / turn as f32) * 2.0 * std::f32::consts::PI;
        scalar(float(s) + r_a * r_b * (theta_a - theta_b).cos())
    }))
}

/// A codebook compressor with its arithmetic.
struct Mse {
    comp: TqMseCompressor,
    rotation: Array2<f32>,
}

impl Mse {
    fn new(dim: usize, seed: u64, bits: u8) -> Mse {
        let scale = 1.0 / (dim as f32).sqrt();
        Mse {
            comp: TqMseCompressor::new(dim, bits, |c: Scalar| scalar(float(c) * scale)),
            rotation: orthogonal(dim, seed),
        }
    }

    fn compress(&self, v: &[f32]) -> TqMseVector {
        let dim = self.comp.dim();
        self.comp.compress(&scalars(v), |x: &[Scalar]| {
            let raw = floats(x);
            let norm = norm_of(&raw);
            let unit: Vec<f32> = if norm > 1e-10 {
                let inverse = 1.0 / norm;
                raw.iter().map(|c| c * inverse).collect()
            } else {
                vec![0.0; dim]
            };
            (times(&self.rotation, &scalars(&unit)), scalar(norm))
        })
    }

    fn decompress(&self, tv: &TqMseVector) -> Vec<f32> {
        floats(&self.comp.decompress(tv, |y: &[Scalar], norm: Scalar| {
            times_transposed(&self.rotation, y).iter().map(|v| scalar(v * float(norm))).collect()
        }))
    }

    fn similarity(&self, a: &TqMseVector, b: &TqMseVector) -> f32 {
        float(self.comp.similarity(
            a,
            b,
            |s: Scalar, x: Scalar, y: Scalar| scalar(float(s) + float(x) * float(y)),
            |dot: Scalar, m: Scalar, n: Scalar| scalar(float(dot) * float(m) * float(n)),
        ))
    }

    fn similarity_raw(&self, query: &[f32], tv: &TqMseVector) -> f32 {
        float(self.comp.similarity_raw(
            &scalars(query),
            tv,
            |x: &[Scalar]| times(&self.rotation, x),
            |s: Scalar, x: Scalar, y: Scalar| scalar(float(s) + float(x) * float(y)),
            |dot: Scalar, n: Scalar| scalar(float(dot) * float(n)),
        ))
    }
}

#[test]
fn test_centroids_symmetry() {
    // For a symmetric distribution (Gaussian), centroids should be
    // approximately symmetric around 0
    let centroids = centroids_for(0.05, 2);
    assert_eq!(centroids.len(), 4);
    assert!(
        (centroids[0] + centroids[3]).abs() < 0.001,
        "c[0]={} c[3]={} should be symmetric",
        centroids[0],
        centroids[3]
    );
    assert!(
        (centroids[1] + centroids[2]).abs() < 0.001,
        "c[1]={} c[2]={} should be symmetric",
        centroids[1],
        centroids[2]
    );
}

#[test]
fn test_centroids_sorted() {
    for bits in 1..=4u8 {
        let centroids = centroids_for(0.051, bits);
        for w in centroids.windows(2) {
            assert!(w[0] < w[1], "centroids not sorted at bits={bits}");
        }
    }
}

#[test]
fn one_bit_centroids_are_the_half_normal_means() {
    // The mean of the upper half of N(0, 1) is sqrt(2 / pi).
    let centroids = centroids_for(1.0, 1);
    assert_eq!(centroids.len(), 2);
    assert!((centroids[1] - 0.79788).abs() < 1e-3, "{}", centroids[1]);
    assert!((centroids[0] + 0.79788).abs() < 1e-3, "{}", centroids[0]);
}

#[test]
fn boundaries_are_midpoints() {
    let centroids = scalars(&[-3.0, -1.0, 2.0, 8.0]);
    assert_eq!(floats(&compute_boundaries(&centroids, &halfway)), vec![-2.0, 0.5, 5.0]);
    assert!(compute_boundaries(&scalars(&[7.0]), &halfway).is_empty());
}

#[test]
fn a_refinement_takes_the_mean_of_each_cell() {
    let centroids = scalars(&[-1.0, 1.0, 5.0]);
    let seen = |lo: Scalar, hi: Scalar| -> Option<Scalar> {
        // The middle cell has no mass.
        if float(lo) == 0.0 {
            None
        } else {
            Some(halfway(lo, hi))
        }
    };
    let (next, change) = refine_centroids(&centroids, scalar(-8.0), scalar(9.0), &halfway, &seen, &widened);
    assert_eq!(floats(&next), vec![-4.0, 1.0, 6.0]);
    assert_eq!(float(change), 3.0);
}

#[test]
fn centroids_come_out_sorted_whatever_the_means() {
    // Means that turn the cells round.
    let centroids = compute_lloyd_max_centroids(
        2,
        scalar(-4.0),
        scalar(4.0),
        &|i: usize, _n: usize| scalar(i as f32),
        &halfway,
        &|lo: Scalar, _hi: Scalar| Some(scalar(-float(lo))),
        &widened,
    );
    assert_eq!(centroids.len(), 4);
    for w in floats(&centroids).windows(2) {
        assert!(w[0] <= w[1]);
    }
}

#[test]
fn lloyd_max_test_compress_decompress_roundtrip() {
    let dim = 64;
    let lm = quantizer(dim, 4);
    let sigma = 1.0 / (dim as f32).sqrt();

    // Simulate a rotated vector
    let rotated: Vec<f32> = (0..dim).map(|i| ((i as f32) * 0.7).sin() * sigma).collect();

    let compressed = lm.compress(&scalars(&rotated));
    let reconstructed = floats(&lm.decompress(&compressed));

    assert_eq!(reconstructed.len(), dim);

    // MSE should be small for 4-bit quantization
    let mse: f32 = rotated
        .iter()
        .zip(&reconstructed)
        .map(|(a, b)| (a - b) * (a - b))
        .sum::<f32>()
        / dim as f32;

    assert!(mse < sigma * sigma * 0.1, "MSE {mse} too high for 4-bit Lloyd-Max");
}

#[test]
fn lloyd_max_test_bytes_per_vector() {
    assert_eq!(quantizer(384, 1).bytes_per_vector(), 48);
    assert_eq!(quantizer(384, 2).bytes_per_vector(), 96);
    assert_eq!(quantizer(384, 3).bytes_per_vector(), 144);
    assert_eq!(quantizer(384, 4).bytes_per_vector(), 192);
    assert_eq!(quantizer(384, 8).bytes_per_vector(), 384);
}

#[test]
fn lloyd_max_test_similarity_raw_matches_decompress() {
    let dim = 32;
    let lm = quantizer(dim, 3);
    let sigma = 1.0 / (dim as f32).sqrt();

    let rotated: Vec<f32> = (0..dim).map(|i| ((i as f32) * 0.5).sin() * sigma).collect();
    let query: Vec<f32> = (0..dim).map(|i| ((i as f32) * 0.3).cos() * sigma).collect();

    let compressed = lm.compress(&scalars(&rotated));
    let sim_raw = lloyd_similarity(&lm, &query, &compressed);

    let decompressed = floats(&lm.decompress(&compressed));
    let sim_manual: f32 = query.iter().zip(&decompressed).map(|(a, b)| a * b).sum();

    assert!(
        (sim_raw - sim_manual).abs() < 1e-6,
        "similarity_raw={sim_raw} vs manual={sim_manual}"
    );
}

#[test]
fn a_coordinate_goes_to_the_cell_it_lies_in() {
    let lm = quantizer(16, 2);
    let c = floats(lm.centroids());
    assert_eq!(lm.dim(), 16);
    assert_eq!(lm.bits(), 2);
    assert_eq!(c.len(), 4);
    let edge = 0.5 * (c[0] + c[1]);
    let mut v = vec![0.0f32; 16];
    v[0] = -100.0;
    v[1] = 100.0;
    v[2] = edge;
    v[3] = c[2];
    v[4] = f32::NAN;
    let sqv = lm.compress(&scalars(&v));
    assert_eq!(sqv.byte_size(), 4);
    assert_eq!((sqv.dim, sqv.bits), (16, 2));
    let back = floats(&lm.decompress(&sqv));
    // An edge belongs to the cell below it, and so does what has no order.
    assert_eq!(&back[..5], &[c[0], c[3], c[0], c[2], c[0]]);
}

#[test]
fn polarquant_test_compress_decompress_roundtrip() {
    let dim = 32;
    let pq = polar_quantizer(dim, 4, 8);

    // Simulate a rotated unit vector
    let scale = 1.0 / (dim as f32).sqrt();
    let rotated: Vec<f32> = (0..dim).map(|i| ((i as f32 * 0.7).sin()) * scale).collect();

    let pv = polar_compress(&pq, &rotated);
    let reconstructed = polar_decompress(&pq, &pv);

    let mse: f32 = rotated
        .iter()
        .zip(&reconstructed)
        .map(|(a, b)| (a - b) * (a - b))
        .sum::<f32>()
        / dim as f32;

    assert!(mse < 1e-3, "roundtrip MSE = {mse}, expected < 1e-3 for well-scaled input");
}

#[test]
fn polarquant_test_similarity_self() {
    let dim = 64;
    let pq = polar_quantizer(dim, 4, 8);

    let scale = 1.0 / (dim as f32).sqrt();
    let rotated: Vec<f32> = (0..dim).map(|i| ((i as f32) * 0.3).cos() * scale).collect();

    let pv = polar_compress(&pq, &rotated);
    let self_sim = polar_similarity(&pq, &pv, &pv);
    assert!(self_sim > 0.0, "self similarity = {self_sim}");
}

#[test]
fn polarquant_test_similarity_raw_matches_decompress() {
    let dim = 32;
    let pq = polar_quantizer(dim, 4, 8);

    let scale = 1.0 / (dim as f32).sqrt();
    let rotated: Vec<f32> = (0..dim).map(|i| ((i as f32) * 0.5).sin() * scale).collect();
    let query: Vec<f32> = (0..dim).map(|i| ((i as f32) * 0.3).cos() * scale).collect();

    let pv = polar_compress(&pq, &rotated);
    let max_radius = float(pq.max_radius());
    let sim_raw = float(pq.similarity_raw(
        &scalars(&query),
        &pv,
        &|a: u8, b: u8, t: u32, m: u32| from_levels(max_radius, a, b, t, m),
        &inner,
    ));

    // Compare with manual decompress + dot
    let decompressed = polar_decompress(&pq, &pv);
    let sim_manual: f32 = query.iter().zip(&decompressed).map(|(a, b)| a * b).sum();

    assert!(
        (sim_raw - sim_manual).abs() < 1e-6,
        "similarity_raw={sim_raw} vs manual={sim_manual}"
    );
}

#[test]
fn polarquant_test_byte_sizes() {
    // 384-dim, 4-bit angles, 8-bit radii
    let pq = polar_quantizer(384, 4, 8);
    // 192 pairs: angle_bytes = 96, radii_bytes = 192, together 288
    assert_eq!(pq.angle_bytes(), 96);
    assert_eq!(pq.radii_bytes(), 192);
    assert_eq!(pq.bytes_per_vector(), 288);
}

#[test]
fn an_odd_dimension_leaves_half_a_pair() {
    let pq = polar_quantizer(5, 3, 8);
    assert_eq!((pq.dim(), pq.angle_bits(), pq.radius_bits()), (5, 3, 8));
    assert_eq!((pq.angle_bytes(), pq.radii_bytes(), pq.bytes_per_vector()), (3, 3, 6));
    let pv = polar_compress(&pq, &[0.5, 0.0, 0.0, 0.5, -0.5]);
    assert_eq!(pv.num_pairs(), 3);
    assert_eq!(pv.byte_size(), 6);
    // Eight levels to the turn: 0 is half a turn on, a quarter is three quarters on.
    assert_eq!(pv.angles, vec![4, 6, 0]);
    let back = polar_decompress(&pq, &pv);
    assert_eq!(back.len(), 5);
    assert!((back[0] - 0.5).abs() < 0.01, "{back:?}");
    assert!((back[3] - 0.5).abs() < 0.01, "{back:?}");
    assert!((back[4] + 0.5).abs() < 0.01, "{back:?}");
}

#[test]
fn four_bit_angles_share_bytes() {
    let pq = polar_quantizer(6, 4, 8);
    assert_eq!(pq.angle_bytes(), 2);
    let pv = polar_compress(&pq, &[1.0, 0.0, 0.0, 1.0, -1.0, 0.0]);
    // Levels 8, 12 and 16, which is 0 again.
    assert_eq!(pv.angles, vec![0xC8, 0x00]);
    assert_eq!(pv.radii.len(), 3);
}

#[test]
fn test_compress_basic() {
    let dim = 32;
    let projection = gaussian(dim, 123);
    let comp = QjlCompressor::new(dim);
    let v: Vec<f32> = (0..dim).map(|i| if i == 0 { 1.0 } else { 0.0 }).collect();
    let bv = comp.compress(&scalars(&v), |x: &[Scalar]| times(&projection, x));
    assert_eq!(bv.byte_len(), 4); // 32/8 = 4
}

#[test]
fn qjl_test_bytes_per_vector() {
    let comp = QjlCompressor::new(384);
    assert_eq!(comp.bytes_per_vector(), 48); // 384/8 = 48
}

#[test]
fn verify_qjl_bytes() {
    let qjl = QjlCompressor::new(384);
    assert_eq!(qjl.dim(), 384);
    assert_eq!(qjl.bytes_per_vector(), 48); // 384/8 = 48
}

#[test]
fn only_positive_values_set_their_bit() {
    let v = [1.0, -1.0, 0.0, -0.0, f32::INFINITY, f32::NAN, f32::NEG_INFINITY, 1e-45, 2.0];
    let BitVector(bits) = pack_signs(&scalars(&v));
    assert_eq!(bits, vec![0b1001_0001, 0b0000_0001]);
    assert_eq!(pack_signs(&[]).byte_len(), 0);
}

fn patterns(bits: &[u32]) -> Vec<f32> {
    bits.iter().map(|&b| f32::from_bits(b)).collect()
}

#[test]
fn test_quantize_scalar_symmetry() {
    let comp = Mse::new(384, 42, 3);
    // Zero should map to a central index.
    let idx = comp.comp.quantize_scalar(scalar(0.0));
    // For 8 centroids symmetric around 0, boundary at 0 means idx=4
    assert_eq!(idx, 4, "zero should map to centroid index 4 (first positive)");
}

#[test]
fn the_codebooks_are_those_of_the_normal_distribution() {
    let two = get_codebook(2);
    assert_eq!(patterns(&two.centroids), vec![-1.5104, -0.4528, 0.4528, 1.5104]);
    assert_eq!(patterns(&two.boundaries), vec![-0.9816, 0.0, 0.9816]);
    let three = get_codebook(3);
    assert_eq!(
        patterns(&three.centroids),
        vec![-2.1520, -1.3440, -0.7560, -0.2451, 0.2451, 0.7560, 1.3440, 2.1520]
    );
    assert_eq!(
        patterns(&three.boundaries),
        vec![-1.7480, -1.0500, -0.5006, 0.0, 0.5006, 1.0500, 1.7480]
    );
    let four = get_codebook(4);
    assert_eq!(
        patterns(&four.centroids),
        vec![
            -2.7326, -2.0690, -1.6180, -1.2562, -0.9424, -0.6568, -0.3881, -0.1284, 0.1284, 0.3881,
            0.6568, 0.9424, 1.2562, 1.6180, 2.0690, 2.7326
        ]
    );
    assert_eq!(
        patterns(&four.boundaries),
        vec![
            -2.4008, -1.8435, -1.4371, -1.0993, -0.7996, -0.5224, -0.2582, 0.0, 0.2582, 0.5224,
            0.7996, 1.0993, 1.4371, 1.8435, 2.4008
        ]
    );
}

#[test]
fn turboquant_mse_test_compress_decompress_roundtrip() {
    let dim = 64;
    let comp = Mse::new(dim, 42, 3);

    let mut v = vec![0.0f32; dim];
    v[0] = 1.0;

    let tv = comp.compress(&v);
    assert_eq!(tv.dim, dim);
    assert_eq!(tv.bits, 3);
    assert!((float(tv.norm) - 1.0).abs() < 1e-6);

    let reconstructed = comp.decompress(&tv);
    assert_eq!(reconstructed.len(), dim);

    // Cosine similarity should be high.
    let dot: f32 = v.iter().zip(&reconstructed).map(|(a, b)| a * b).sum();
    let norm_r: f32 = reconstructed.iter().map(|x| x * x).sum::<f32>().sqrt();
    let cosine = if norm_r > 0.0 { dot / norm_r } else { 0.0 };
    assert!(cosine > 0.8, "roundtrip cosine = {cosine}, expected > 0.8");
}

#[test]
fn test_compress_decompress_4bit() {
    let dim = 64;
    let comp = Mse::new(dim, 42, 4);

    let mut v = vec![0.0f32; dim];
    v[0] = 0.8;
    v[1] = 0.6;

    let tv = comp.compress(&v);
    let reconstructed = comp.decompress(&tv);

    let dot: f32 = v.iter().zip(&reconstructed).map(|(a, b)| a * b).sum();
    let norm_v: f32 = v.iter().map(|x| x * x).sum::<f32>().sqrt();
    let norm_r: f32 = reconstructed.iter().map(|x| x * x).sum::<f32>().sqrt();
    let cosine = dot / (norm_v * norm_r);
    assert!(cosine > 0.9, "4-bit roundtrip cosine = {cosine}, expected > 0.9");
}

#[test]
fn turboquant_mse_test_similarity_self() {
    let dim = 64;
    let comp = Mse::new(dim, 99, 3);

    let mut v = vec![0.0f32; dim];
    v[0] = 1.0;

    let tv = comp.compress(&v);
    let self_sim = comp.similarity(&tv, &tv);
    assert!(self_sim > 0.0, "self similarity = {self_sim}");
}

#[test]
fn turboquant_mse_test_similarity_ordering() {
    let dim = 64;
    let comp = Mse::new(dim, 55, 3);

    let mut v1 = vec![0.0f32; dim];
    v1[0] = 1.0;

    let mut v2 = vec![0.0f32; dim];
    let n = (0.9f32 * 0.9 + 0.1 * 0.1).sqrt();
    v2[0] = 0.9 / n;
    v2[1] = 0.1 / n;

    let mut v3 = vec![0.0f32; dim];
    v3[1] = 1.0;

    let tv1 = comp.compress(&v1);
    let tv2 = comp.compress(&v2);
    let tv3 = comp.compress(&v3);

    let sim12 = comp.similarity(&tv1, &tv2);
    let sim13 = comp.similarity(&tv1, &tv3);

    assert!(
        sim12 > sim13,
        "similar vectors should have higher similarity: sim12={sim12}, sim13={sim13}"
    );
}

#[test]
fn test_similarity_raw_matches() {
    let dim = 32;
    let comp = Mse::new(dim, 42, 3);

    let mut v1 = vec![0.0f32; dim];
    v1[0] = 1.0;
    let mut v2 = vec![0.0f32; dim];
    v2[0] = 0.8;
    v2[1] = 0.6;

    let tv1 = comp.compress(&v1);
    let tv2 = comp.compress(&v2);

    let sim_compressed = comp.similarity(&tv1, &tv2);
    let sim_raw = comp.similarity_raw(&v1, &tv2);

    // The raw query is at full precision, so the two are close but not equal.
    assert!(
        (sim_compressed - sim_raw).abs() < 0.15,
        "compressed={sim_compressed}, raw={sim_raw}"
    );
}

/// The codebook that a compressor looks values up in.
fn looked_up(comp: &TqMseCompressor) -> Vec<Scalar> {
    let data: Vec<u8> = vec![0b1000_1000, 0b1100_0110, 0b1111_1010];
    let mut bytes = data.clone();
    bytes.resize(TqMseVector::index_bytes(comp.dim(), comp.bits()), 0);
    let tv = TqMseVector { data: bytes, norm: scalar(1.0), dim: comp.dim(), bits: comp.bits() };
    comp.decompress(&tv, |y: &[Scalar], _n: Scalar| y.to_vec())
}

#[test]
fn turboquant_mse_test_deterministic() {
    let dim = 32;
    let c1 = Mse::new(dim, 42, 3);
    let c2 = Mse::new(dim, 42, 3);
    assert_eq!(c1.rotation, c2.rotation);
    assert_eq!(floats(&looked_up(&c1.comp)), floats(&looked_up(&c2.comp)));
    // The first eight indices are 0 to 7: the whole codebook, scaled.
    let scale = 1.0 / (dim as f32).sqrt();
    let scaled: Vec<f32> = patterns(&get_codebook(3).centroids).iter().map(|c| c * scale).collect();
    assert_eq!(&floats(&looked_up(&c1.comp))[..8], &scaled[..]);
}

#[test]
fn turboquant_mse_test_byte_sizes() {
    // 384-dim, 3-bit: 384 * 3 / 8 = 144 bytes + 4 norm = 148
    assert_eq!(TqMseVector::index_bytes(384, 3), 144);
    let comp = Mse::new(384, 42, 3);
    assert_eq!(comp.comp.bytes_per_vector(), 148);

    // 384-dim, 2-bit: 384 * 2 / 8 = 96 bytes + 4 norm = 100
    assert_eq!(TqMseVector::index_bytes(384, 2), 96);

    // 384-dim, 4-bit: 384 * 4 / 8 = 192 bytes + 4 norm = 196
    assert_eq!(TqMseVector::index_bytes(384, 4), 192);
}

#[test]
fn test_mse_distortion() {
    // MSE distortion at 3-bit is reasonable for random unit vectors.
    let dim = 384;
    let comp = Mse::new(dim, 42, 3);

    let mut rng = ChaCha8Rng::seed_from_u64(123);
    let normal = Normal::new(0.0, 1.0f64).unwrap();

    let mut total_mse = 0.0f64;
    let n_trials = 100;

    for _ in 0..n_trials {
        let raw: Vec<f32> = (0..dim).map(|_| normal.sample(&mut rng) as f32).collect();
        let norm: f32 = raw.iter().map(|v| v * v).sum::<f32>().sqrt();
        let unit: Vec<f32> = raw.iter().map(|v| v / norm).collect();

        let tv = comp.compress(&unit);
        let recon = comp.decompress(&tv);

        let mse: f32 = unit.iter().zip(&recon).map(|(a, b)| (a - b) * (a - b)).sum();
        total_mse += mse as f64;
    }

    let avg_mse = total_mse / n_trials as f64;
    // The bound for three bits: sqrt(3*pi)/2 * 4^-3 is about 0.038
    assert!(avg_mse < 0.05, "average MSE = {avg_mse}, expected < 0.05 for 3-bit");
}

#[test]
fn compression_takes_the_nearest_centroid() {
    let mut rng = ChaCha8Rng::seed_from_u64(21);
    for bits in 1..=4u8 {
        let dim = 64;
        let lm = quantizer(dim, bits);
        let centers = centroids_for(1.0 / (dim as f32).sqrt(), bits);
        let v = random_unit_vec(dim, &mut rng);
        let back = floats(&lm.decompress(&lm.compress(&scalars(&v))));
        for (x, y) in v.iter().zip(&back) {
            let nearest = centers.iter().map(|c| (x - c).abs()).fold(f32::INFINITY, f32::min);
            assert!((x - y).abs() <= nearest + 1e-6, "bits={bits} x={x} y={y}");
        }
    }
}

#[test]
fn a_vector_is_readable_where_its_indices_name_centroids() {
    let lm = quantizer(8, 2);
    let fine = lm.compress(&scalars(&[0.1; 8]));
    assert!(lm.can_decompress(&fine));
    let other = |data: Vec<u8>, dim: usize, bits: u8| ScalarQuantVector { data, dim, bits };
    assert!(!lm.can_decompress(&other(vec![0; 2], 7, 2)));
    assert!(!lm.can_decompress(&other(vec![0; 1], 8, 2)));
    assert!(!lm.can_decompress(&other(vec![0; 2], 8, 0)));
    assert!(!lm.can_decompress(&other(vec![0; 9], 8, 9)));
    assert!(lm.can_decompress(&other(vec![0x33; 4], 8, 4)));
    assert!(!lm.can_decompress(&other(vec![0x43; 4], 8, 4)));
    assert!(lm.can_decompress(&other(vec![0x55], 8, 1)));
}
