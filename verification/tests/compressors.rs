//! The compressors: sizes, reconstruction, similarities and rankings.
#![allow(dead_code)]

use std::rc::Rc;

use ndarray::{Array1, Array2};
use rand::SeedableRng;
use rand_chacha::ChaCha8Rng;
use rand_distr::{Distribution, Normal};
use turboquant::compression::centroids::compute_lloyd_max_centroids;
use turboquant::compression::lloyd_max::LloydMaxQuantizer;
use turboquant::compression::polarquant::PolarQuantizer;
use turboquant::compression::qjl::BitVector;
use turboquant::scalar::Scalar;
use turboquant::turboquant::{
    residual_correction, LloydMaxCompressor, LloydMaxVector, PreparedQuery, TurboQuantCompressor,
    TurboQuantVector,
};

const DIM: usize = 384;
const RAW_BYTES_PER_VEC: usize = DIM * 4; // 1,536 bytes

fn scalar(x: f32) -> Scalar {
    Scalar::from_bits(x.to_bits())
}

fn float(s: Scalar) -> f32 {
    f32::from_bits(s.to_bits())
}

fn scalars(v: &[f32]) -> Vec<Scalar> {
    v.iter().map(|&x| scalar(x)).collect()
}

fn floats(v: &[Scalar]) -> Vec<f32> {
    v.iter().map(|&s| float(s)).collect()
}

fn inner(a: &[Scalar], b: &[Scalar]) -> Scalar {
    scalar(a.iter().zip(b).map(|(x, y)| float(*x) * float(*y)).sum())
}

fn norm_of(v: &[f32]) -> f32 {
    v.iter().map(|x| x * x).sum::<f32>().sqrt()
}

fn random_unit_vec(dim: usize, rng: &mut ChaCha8Rng) -> Vec<f32> {
    let normal = Normal::new(0.0, 1.0f64).unwrap();
    let raw: Vec<f32> = (0..dim).map(|_| normal.sample(rng) as f32).collect();
    let norm = norm_of(&raw);
    raw.iter().map(|v| v / norm).collect()
}

/// A random orthogonal matrix.
fn orthogonal(dim: usize, seed: u64) -> Array2<f32> {
    let mut rng = ChaCha8Rng::seed_from_u64(seed);
    let normal = Normal::new(0.0, 1.0f64).unwrap();
    let data: Vec<f32> = (0..dim * dim).map(|_| normal.sample(&mut rng) as f32).collect();
    let mut q = Array2::from_shape_vec((dim, dim), data).unwrap();
    for i in 0..dim {
        let norm: f32 = q.column(i).dot(&q.column(i)).sqrt();
        if norm > 1e-10 {
            let inverse = 1.0 / norm;
            for r in 0..dim {
                q[[r, i]] *= inverse;
            }
        }
        for j in (i + 1)..dim {
            let proj: f32 = q.column(i).dot(&q.column(j));
            for r in 0..dim {
                q[[r, j]] -= proj * q[[r, i]];
            }
        }
    }
    q
}

/// A matrix of independent normal entries.
fn gaussian(dim: usize, seed: u64) -> Array2<f32> {
    let mut rng = ChaCha8Rng::seed_from_u64(seed);
    let normal = Normal::new(0.0, (1.0 / dim as f64).sqrt()).unwrap();
    let data: Vec<f32> = (0..dim * dim).map(|_| normal.sample(&mut rng) as f32).collect();
    Array2::from_shape_vec((dim, dim), data).unwrap()
}

fn times(m: &Array2<f32>, v: &[Scalar]) -> Vec<Scalar> {
    let x = Array1::from_vec(floats(v));
    scalars(&m.dot(&x).to_vec())
}

fn times_transposed(m: &Array2<f32>, v: &[Scalar]) -> Vec<f32> {
    let x = Array1::from_vec(floats(v));
    m.t().dot(&x).to_vec()
}

/// The arithmetic that the compressors are given.
#[derive(Clone)]
struct Arithmetic {
    dim: usize,
    rotation: Rc<Array2<f32>>,
    projection: Rc<Array2<f32>>,
}

impl Arithmetic {
    fn new(dim: usize, rotation_seed: u64, qjl_seed: u64) -> Arithmetic {
        Arithmetic {
            dim,
            rotation: Rc::new(orthogonal(dim, rotation_seed)),
            projection: Rc::new(gaussian(dim, qjl_seed)),
        }
    }

    fn rotate_unit(&self, v: &[Scalar]) -> (Vec<Scalar>, Scalar) {
        let raw = floats(v);
        let norm = norm_of(&raw);
        let unit: Vec<f32> = if norm > 1e-10 {
            raw.iter().map(|x| x / norm).collect()
        } else {
            vec![0.0; self.dim]
        };
        (times(&self.rotation, &scalars(&unit)), scalar(norm))
    }

    fn rotate(&self, v: &[Scalar]) -> Vec<Scalar> {
        times(&self.rotation, v)
    }

    fn project(&self, v: &[Scalar]) -> Vec<Scalar> {
        times(&self.projection, v)
    }

    fn residual(&self, a: &[Scalar], b: &[Scalar]) -> (Vec<Scalar>, Scalar) {
        let rest: Vec<f32> = a.iter().zip(b).map(|(x, y)| float(*x) - float(*y)).collect();
        let norm = norm_of(&rest);
        (scalars(&rest), scalar(norm))
    }

    fn restore(&self, y: &[Scalar], norm: Scalar) -> Vec<Scalar> {
        let x = times_transposed(&self.rotation, y);
        x.iter().map(|v| scalar(v * float(norm))).collect()
    }

    fn signed(&self, sum: Scalar, positive: bool, p: Scalar) -> Scalar {
        let sign = if positive { 1.0f32 } else { -1.0f32 };
        scalar(float(sum) + sign * float(p))
    }

    fn weighted(&self, norm: Scalar, sum: Scalar) -> Scalar {
        let scale = float(norm) * (std::f32::consts::PI / (2.0 * self.dim as f32)).sqrt();
        scalar(scale * float(sum))
    }

    fn whole(&self, norm: Scalar, similarity: Scalar, correction: Scalar) -> Scalar {
        scalar(float(norm) * (float(similarity) + float(correction)))
    }
}

fn gaussian_pdf(x: f32, sigma: f32) -> f32 {
    let coeff = 1.0 / (sigma * (2.0 * std::f32::consts::PI).sqrt());
    let exponent = -(x * x) / (2.0 * sigma * sigma);
    coeff * exponent.exp()
}

fn gaussian_conditional_mean(a: f32, b: f32, sigma: f32, n_points: usize) -> (f64, f64) {
    let h = (b - a) as f64 / n_points as f64;
    let mut num = 0.0f64;
    let mut den = 0.0f64;
    for i in 0..=n_points {
        let x = a as f64 + i as f64 * h;
        let p = gaussian_pdf(x as f32, sigma) as f64;
        let weight = if i == 0 || i == n_points { 0.5 } else { 1.0 };
        num += weight * x * p;
        den += weight * p;
    }
    (num * h, den * h)
}

fn spaced(range: f32, i: usize, n: usize) -> Scalar {
    scalar(-range + (2.0 * range) * (i as f32 + 0.5) / n as f32)
}

fn halfway(a: Scalar, b: Scalar) -> Scalar {
    scalar(0.5 * (float(a) + float(b)))
}

fn mean_between(sigma: f32, lo: Scalar, hi: Scalar) -> Option<Scalar> {
    let (num, den) = gaussian_conditional_mean(float(lo), float(hi), sigma, 200);
    if den.abs() > 1e-15 {
        Some(scalar((num / den) as f32))
    } else {
        None
    }
}

fn widened(most: Scalar, new: Scalar, old: Scalar) -> Scalar {
    scalar(float(most).max((float(new) - float(old)).abs()))
}

fn centroids_for(sigma: f32, bits: u8) -> Vec<f32> {
    let range = 5.0 * sigma;
    floats(&compute_lloyd_max_centroids(
        bits,
        scalar(-range),
        scalar(range),
        &|i: usize, n: usize| spaced(range, i, n),
        &halfway,
        &|lo: Scalar, hi: Scalar| mean_between(sigma, lo, hi),
        &widened,
    ))
}

fn quantizer(dim: usize, bits: u8) -> LloydMaxQuantizer {
    let sigma = 1.0 / (dim as f32).sqrt();
    let range = 5.0 * sigma;
    LloydMaxQuantizer::new(
        dim,
        bits,
        scalar(-range),
        scalar(range),
        |i: usize, n: usize| spaced(range, i, n),
        halfway,
        |lo: Scalar, hi: Scalar| mean_between(sigma, lo, hi),
        widened,
    )
}

/// A scalar compressor with its arithmetic.
struct Lloyd {
    comp: LloydMaxCompressor,
    math: Arithmetic,
}

impl Lloyd {
    fn new(dim: usize, rotation_seed: u64, qjl_seed: u64, bits: u8) -> Lloyd {
        Lloyd::with(&Arithmetic::new(dim, rotation_seed, qjl_seed), bits)
    }

    fn with(math: &Arithmetic, bits: u8) -> Lloyd {
        Lloyd { comp: LloydMaxCompressor::new(quantizer(math.dim, bits)), math: math.clone() }
    }

    fn bytes_per_vector(&self) -> usize {
        self.comp.bytes_per_vector()
    }

    fn compress(&self, v: &[f32]) -> LloydMaxVector {
        self.comp.compress(
            &scalars(v),
            |x: &[Scalar]| self.math.rotate_unit(x),
            |a: &[Scalar], b: &[Scalar]| self.math.residual(a, b),
            |x: &[Scalar]| self.math.project(x),
        )
    }

    fn decompress(&self, lv: &LloydMaxVector) -> Vec<f32> {
        floats(&self.comp.decompress(lv, |y: &[Scalar], n: Scalar| self.math.restore(y, n)))
    }

    fn prepare_query(&self, query: &[f32]) -> PreparedQuery {
        self.comp.prepare_query(
            &scalars(query),
            |x: &[Scalar]| self.math.rotate(x),
            |x: &[Scalar]| self.math.project(x),
        )
    }

    fn similarity_prepared(&self, prepared: &PreparedQuery, lv: &LloydMaxVector) -> f32 {
        float(self.comp.similarity_prepared(
            prepared,
            lv,
            &inner,
            &|s: Scalar, b: bool, p: Scalar| self.math.signed(s, b, p),
            &|n: Scalar, s: Scalar| self.math.weighted(n, s),
            &|n: Scalar, s: Scalar, c: Scalar| self.math.whole(n, s, c),
        ))
    }

    fn similarity_raw(&self, query: &[f32], lv: &LloydMaxVector) -> f32 {
        float(self.comp.similarity_raw(
            &scalars(query),
            lv,
            |x: &[Scalar]| self.math.rotate(x),
            |x: &[Scalar]| self.math.project(x),
            &inner,
            &|s: Scalar, b: bool, p: Scalar| self.math.signed(s, b, p),
            &|n: Scalar, s: Scalar| self.math.weighted(n, s),
            &|n: Scalar, s: Scalar, c: Scalar| self.math.whole(n, s, c),
        ))
    }
}

fn polar_quantizer(dim: usize, angle_bits: u8, radius_bits: u8) -> PolarQuantizer {
    PolarQuantizer::new(dim, angle_bits, radius_bits, scalar(4.0 / (dim as f32).sqrt()))
}

fn to_levels(max_radius: f32, y0: Scalar, y1: Scalar, turn: u32, top: u32) -> (u32, u8) {
    let (y0, y1) = (float(y0), float(y1));
    let r = (y0 * y0 + y1 * y1).sqrt();
    let theta = y1.atan2(y0);
    let theta_norm = (theta + std::f32::consts::PI) / (2.0 * std::f32::consts::PI);
    let r_norm = (r / max_radius).clamp(0.0, 1.0);
    ((theta_norm * turn as f32).round() as u32, (r_norm * top as f32).round() as u8)
}

fn from_levels(max_radius: f32, angle: u8, radius: u8, turn: u32, top: u32) -> (Scalar, Scalar) {
    let theta = (angle as f32 / turn as f32) * 2.0 * std::f32::consts::PI - std::f32::consts::PI;
    let r = (radius as f32 / top as f32) * max_radius;
    (scalar(r * theta.cos()), scalar(r * theta.sin()))
}

/// A polar compressor with its arithmetic.
struct Turbo {
    comp: TurboQuantCompressor,
    math: Arithmetic,
    max_radius: f32,
}

impl Turbo {
    fn new(dim: usize, rotation_seed: u64, qjl_seed: u64, angle_bits: u8, radius_bits: u8) -> Turbo {
        Turbo::with(&Arithmetic::new(dim, rotation_seed, qjl_seed), angle_bits, radius_bits)
    }

    fn with(math: &Arithmetic, angle_bits: u8, radius_bits: u8) -> Turbo {
        let polar = polar_quantizer(math.dim, angle_bits, radius_bits);
        let max_radius = float(polar.max_radius());
        Turbo { comp: TurboQuantCompressor::new(polar), math: math.clone(), max_radius }
    }

    fn bytes_per_vector(&self) -> usize {
        self.comp.bytes_per_vector()
    }

    fn compress(&self, v: &[f32]) -> TurboQuantVector {
        self.comp.compress(
            &scalars(v),
            |x: &[Scalar]| self.math.rotate_unit(x),
            |y0: Scalar, y1: Scalar, t: u32, m: u32| to_levels(self.max_radius, y0, y1, t, m),
            |a: u8, b: u8, t: u32, m: u32| from_levels(self.max_radius, a, b, t, m),
            |a: &[Scalar], b: &[Scalar]| self.math.residual(a, b),
            |x: &[Scalar]| self.math.project(x),
        )
    }

    fn decompress(&self, tv: &TurboQuantVector) -> Vec<f32> {
        floats(&self.comp.decompress(
            tv,
            |a: u8, b: u8, t: u32, m: u32| from_levels(self.max_radius, a, b, t, m),
            |y: &[Scalar], n: Scalar| self.math.restore(y, n),
        ))
    }

    fn prepare_query(&self, query: &[f32]) -> PreparedQuery {
        self.comp.prepare_query(
            &scalars(query),
            |x: &[Scalar]| self.math.rotate(x),
            |x: &[Scalar]| self.math.project(x),
        )
    }

    fn similarity_prepared(&self, prepared: &PreparedQuery, tv: &TurboQuantVector) -> f32 {
        float(self.comp.similarity_prepared(
            prepared,
            tv,
            &|a: u8, b: u8, t: u32, m: u32| from_levels(self.max_radius, a, b, t, m),
            &inner,
            &|s: Scalar, b: bool, p: Scalar| self.math.signed(s, b, p),
            &|n: Scalar, s: Scalar| self.math.weighted(n, s),
            &|n: Scalar, s: Scalar, c: Scalar| self.math.whole(n, s, c),
        ))
    }

    fn similarity_raw(&self, query: &[f32], tv: &TurboQuantVector) -> f32 {
        float(self.comp.similarity_raw(
            &scalars(query),
            tv,
            |x: &[Scalar]| self.math.rotate(x),
            |x: &[Scalar]| self.math.project(x),
            &|a: u8, b: u8, t: u32, m: u32| from_levels(self.max_radius, a, b, t, m),
            &inner,
            &|s: Scalar, b: bool, p: Scalar| self.math.signed(s, b, p),
            &|n: Scalar, s: Scalar| self.math.weighted(n, s),
            &|n: Scalar, s: Scalar, c: Scalar| self.math.whole(n, s, c),
        ))
    }
}

#[test]
fn turboquant_test_compress_decompress_roundtrip() {
    let dim = 64;
    let comp = Turbo::new(dim, 42, 99, 4, 8);

    let mut v = vec![0.0f32; dim];
    v[0] = 1.0;

    let tv = comp.compress(&v);
    assert!((float(tv.original_norm) - 1.0).abs() < 1e-6);
    assert!(float(tv.residual_norm) >= 0.0);

    let reconstructed = comp.decompress(&tv);
    assert_eq!(reconstructed.len(), dim);

    let dot: f32 = v.iter().zip(&reconstructed).map(|(a, b)| a * b).sum();
    let norm_r: f32 = reconstructed.iter().map(|x| x * x).sum::<f32>().sqrt();
    let cosine = if norm_r > 0.0 { dot / norm_r } else { 0.0 };
    assert!(cosine > 0.7, "roundtrip cosine = {cosine}, expected > 0.7");
}

#[test]
fn turboquant_test_similarity_ordering() {
    let dim = 64;
    let comp = Turbo::new(dim, 55, 77, 4, 8);

    let mut v1 = vec![0.0f32; dim];
    v1[0] = 1.0;

    let mut v2 = vec![0.0f32; dim];
    let n = (0.9f32 * 0.9 + 0.1 * 0.1).sqrt();
    v2[0] = 0.9 / n;
    v2[1] = 0.1 / n;

    let mut v3 = vec![0.0f32; dim];
    v3[1] = 1.0;

    let tv2 = comp.compress(&v2);
    let tv3 = comp.compress(&v3);

    let sim12 = comp.similarity_raw(&v1, &tv2);
    let sim13 = comp.similarity_raw(&v1, &tv3);

    assert!(
        sim12 > sim13,
        "similar vectors should score higher: sim12={sim12}, sim13={sim13}"
    );
}

#[test]
fn test_prepared_matches_raw() {
    let dim = 32;
    let comp = Turbo::new(dim, 42, 99, 4, 8);
    let mut rng = ChaCha8Rng::seed_from_u64(1);

    let query = random_unit_vec(dim, &mut rng);
    let target = random_unit_vec(dim, &mut rng);
    let tv = comp.compress(&target);

    let sim_raw = comp.similarity_raw(&query, &tv);
    let prepared = comp.prepare_query(&query);
    let sim_prepared = comp.similarity_prepared(&prepared, &tv);

    assert!(
        (sim_raw - sim_prepared).abs() < 1e-6,
        "raw={sim_raw}, prepared={sim_prepared}"
    );
}

#[test]
fn test_similarity_preserves_ranking() {
    let dim = 384;
    let comp = Turbo::new(dim, 42, 99, 4, 8);
    let mut rng = ChaCha8Rng::seed_from_u64(77);

    let query = random_unit_vec(dim, &mut rng);
    let vecs: Vec<Vec<f32>> = (0..50).map(|_| random_unit_vec(dim, &mut rng)).collect();

    let true_sims: Vec<f32> = vecs
        .iter()
        .map(|v| query.iter().zip(v).map(|(a, b)| a * b).sum())
        .collect();

    let prepared = comp.prepare_query(&query);
    let compressed: Vec<_> = vecs.iter().map(|v| comp.compress(v)).collect();
    let comp_sims: Vec<f32> = compressed
        .iter()
        .map(|tv| comp.similarity_prepared(&prepared, tv))
        .collect();

    // Top-5 by true similarity
    let mut true_ranking: Vec<(usize, f32)> =
        true_sims.iter().copied().enumerate().collect();
    true_ranking.sort_by(|a, b| b.1.partial_cmp(&a.1).unwrap());
    let true_top5: Vec<usize> = true_ranking[..5].iter().map(|(i, _)| *i).collect();

    // Top-5 by compressed similarity
    let mut comp_ranking: Vec<(usize, f32)> =
        comp_sims.iter().copied().enumerate().collect();
    comp_ranking.sort_by(|a, b| b.1.partial_cmp(&a.1).unwrap());
    let comp_top5: Vec<usize> = comp_ranking[..5].iter().map(|(i, _)| *i).collect();

    let overlap = true_top5
        .iter()
        .filter(|i| comp_top5.contains(i))
        .count();

    assert!(
        overlap >= 2,
        "at least 2 of true top-5 should appear in compressed top-5, got {overlap}/5"
    );
}

#[test]
fn turboquant_test_byte_sizes() {
    // 384-dim: polar(288) + qjl(48) + norms(8) = 344
    let comp = Turbo::new(384, 42, 99, 4, 8);
    assert_eq!(comp.bytes_per_vector(), 344);
}

#[test]
fn turboquant_test_deterministic() {
    let c1 = Turbo::new(32, 42, 99, 4, 8);
    let c2 = Turbo::new(32, 42, 99, 4, 8);

    let v = vec![1.0f32; 32];
    let tv1 = c1.compress(&v);
    let tv2 = c2.compress(&v);

    assert_eq!(tv1.polar.angles, tv2.polar.angles);
    assert_eq!(tv1.polar.radii, tv2.polar.radii);
    assert_eq!(tv1.residual_signs.0, tv2.residual_signs.0);
    assert_eq!(float(tv1.residual_norm), float(tv2.residual_norm));
    assert_eq!(float(tv1.original_norm), float(tv2.original_norm));
}

#[test]
fn verify_polarquant_bytes() {
    let pq = polar_quantizer(DIM, 4, 8);
    // 192 pairs: angle_bytes=96, radii_bytes=192 → 288
    assert_eq!(pq.bytes_per_vector(), 288);
}

#[test]
fn verify_turboquant_bytes() {
    let comp = Turbo::new(DIM, 42, 99, 4, 8);
    // polar(288) + qjl(48) + norms(8) = 344
    assert_eq!(comp.bytes_per_vector(), 344);

    let mut rng = ChaCha8Rng::seed_from_u64(1);
    let v = random_unit_vec(DIM, &mut rng);
    let tv = comp.compress(&v);
    assert_eq!(tv.byte_size(), 344);
}

#[test]
fn verify_compression_ratio() {
    let comp = Turbo::new(DIM, 42, 99, 4, 8);
    let ratio = RAW_BYTES_PER_VEC as f64 / comp.bytes_per_vector() as f64;
    // 1536 / 344 ≈ 4.5x
    assert!(
        ratio > 4.0,
        "compression ratio {ratio:.1}x should be > 4x"
    );
}

#[test]
fn verify_lloydmax_bytes() {
    let comp = Lloyd::new(DIM, 42, 99, 4);
    // indices: ceil(384*4/8)=192, qjl: 48, norms: 8 → 248
    assert_eq!(comp.bytes_per_vector(), 248);

    let mut rng = ChaCha8Rng::seed_from_u64(1);
    let v = random_unit_vec(DIM, &mut rng);
    let lv = comp.compress(&v);
    assert_eq!(lv.byte_size(), 248);
}

#[test]
fn verify_lloydmax_compression_ratio() {
    let comp = Lloyd::new(DIM, 42, 99, 4);
    let ratio = RAW_BYTES_PER_VEC as f64 / comp.bytes_per_vector() as f64;
    // 1536 / 248 ≈ 6.2x
    assert!(
        ratio > 6.0,
        "Lloyd-Max 4-bit compression ratio {ratio:.1}x should be > 6x"
    );
}

#[test]
fn verify_roundtrip_cosine() {
    let comp = Turbo::new(DIM, 42, 99, 4, 8);
    let mut rng = ChaCha8Rng::seed_from_u64(123);

    let mut total_cosine = 0.0f64;
    let n_trials = 200;

    for _ in 0..n_trials {
        let v = random_unit_vec(DIM, &mut rng);
        let tv = comp.compress(&v);
        let recon = comp.decompress(&tv);

        let dot: f32 = v.iter().zip(&recon).map(|(a, b)| a * b).sum();
        let norm_r: f32 = recon.iter().map(|x| x * x).sum::<f32>().sqrt();
        let cosine = if norm_r > 0.0 { dot / norm_r } else { 0.0 };
        total_cosine += cosine as f64;
    }

    let avg_cosine = total_cosine / n_trials as f64;
    println!("Average roundtrip cosine similarity: {avg_cosine:.4}");

    assert!(
        avg_cosine > 0.85,
        "average cosine = {avg_cosine:.4}, expected > 0.85"
    );
}

#[test]
fn verify_similarity_preserves_ranking() {
    let comp = Turbo::new(DIM, 42, 99, 4, 8);
    let mut rng = ChaCha8Rng::seed_from_u64(77);

    let query = random_unit_vec(DIM, &mut rng);
    let vecs: Vec<Vec<f32>> = (0..50).map(|_| random_unit_vec(DIM, &mut rng)).collect();

    let true_sims: Vec<f32> = vecs
        .iter()
        .map(|v| query.iter().zip(v).map(|(a, b)| a * b).sum())
        .collect();

    let prepared = comp.prepare_query(&query);
    let compressed: Vec<_> = vecs.iter().map(|v| comp.compress(v)).collect();
    let comp_sims: Vec<f32> = compressed
        .iter()
        .map(|tv| comp.similarity_prepared(&prepared, tv))
        .collect();

    // Top-5 by true similarity
    let mut true_ranking: Vec<(usize, f32)> = true_sims.iter().copied().enumerate().collect();
    true_ranking.sort_by(|a, b| b.1.partial_cmp(&a.1).unwrap());
    let true_top5: Vec<usize> = true_ranking[..5].iter().map(|(i, _)| *i).collect();

    // Top-5 by compressed similarity
    let mut comp_ranking: Vec<(usize, f32)> = comp_sims.iter().copied().enumerate().collect();
    comp_ranking.sort_by(|a, b| b.1.partial_cmp(&a.1).unwrap());
    let comp_top5: Vec<usize> = comp_ranking[..5].iter().map(|(i, _)| *i).collect();

    let overlap = true_top5
        .iter()
        .filter(|i| comp_top5.contains(i))
        .count();

    println!(
        "Top-5 overlap: {overlap}/5\n  true_top5={true_top5:?}\n  comp_top5={comp_top5:?}"
    );

    assert!(
        overlap >= 2,
        "at least 2 of true top-5 should appear in compressed top-5, got {overlap}/5"
    );
}

#[test]
fn experiment_bitwidth_sweep() {
    let math = Arithmetic::new(DIM, 42, 99);
    let mut rng = ChaCha8Rng::seed_from_u64(42);
    let n_vecs = 200;
    let vecs: Vec<Vec<f32>> = (0..n_vecs).map(|_| random_unit_vec(DIM, &mut rng)).collect();

    let configs: Vec<(u8, u8)> = vec![
        (2, 4), (2, 6), (2, 8),
        (3, 4), (3, 6), (3, 8),
        (4, 4), (4, 6), (4, 8),
    ];

    println!("\n{:>6} {:>6} {:>10} {:>10} {:>12} {:>10}",
        "angle", "radius", "bits/dim", "MSE", "avg_cosine", "ratio");
    println!("{}", "-".repeat(62));

    let mut prev_mse = f64::MAX;
    let mut prev_angle = 0u8;

    for &(angle_bits, radius_bits) in &configs {
        let comp = Turbo::with(&math, angle_bits, radius_bits);
        let bpv = comp.bytes_per_vector();
        let bits_per_dim = (bpv as f64 * 8.0) / DIM as f64;
        let ratio = RAW_BYTES_PER_VEC as f64 / bpv as f64;

        let mut total_mse = 0.0f64;
        let mut total_cosine = 0.0f64;

        for v in &vecs {
            let tv = comp.compress(v);
            let recon = comp.decompress(&tv);

            let mse: f64 = v.iter().zip(&recon)
                .map(|(a, b)| ((a - b) as f64) * ((a - b) as f64))
                .sum::<f64>() / DIM as f64;
            total_mse += mse;

            let dot: f32 = v.iter().zip(&recon).map(|(a, b)| a * b).sum();
            let norm_r: f32 = recon.iter().map(|x| x * x).sum::<f32>().sqrt();
            let cosine = if norm_r > 0.0 { dot / norm_r } else { 0.0 };
            total_cosine += cosine as f64;
        }

        let avg_mse = total_mse / n_vecs as f64;
        let avg_cosine = total_cosine / n_vecs as f64;

        println!("{angle_bits:>6} {radius_bits:>6} {bits_per_dim:>10.2} {avg_mse:>10.6} {avg_cosine:>12.4} {ratio:>10.2}x");

        // All configs should produce reasonable cosine similarity
        assert!(
            avg_cosine > 0.5,
            "angle={angle_bits}, radius={radius_bits}: avg_cosine={avg_cosine:.4} < 0.5"
        );

        // Within the same angle_bits, increasing radius_bits should not increase MSE
        // (more bits for radius → better reconstruction)
        if angle_bits == prev_angle && avg_mse > prev_mse * 1.1 {
            panic!(
                "MSE should decrease with more radius bits: \
                 angle={angle_bits}, radius={radius_bits} MSE={avg_mse:.6} > prev={prev_mse:.6}"
            );
        }

        prev_mse = avg_mse;
        prev_angle = angle_bits;
    }

    // Verify the best config (4-bit angle, 8-bit radius) beats the worst (2-bit angle, 4-bit radius)
    let comp_best = Turbo::with(&math, 4, 8);
    let comp_worst = Turbo::with(&math, 2, 4);

    let v = &vecs[0];
    let mse_best: f64 = {
        let recon = comp_best.decompress(&comp_best.compress(v));
        v.iter().zip(&recon).map(|(a, b)| ((a - b) as f64).powi(2)).sum::<f64>() / DIM as f64
    };
    let mse_worst: f64 = {
        let recon = comp_worst.decompress(&comp_worst.compress(v));
        v.iter().zip(&recon).map(|(a, b)| ((a - b) as f64).powi(2)).sum::<f64>() / DIM as f64
    };

    assert!(
        mse_best < mse_worst,
        "4/8 config MSE ({mse_best:.6}) should beat 2/4 config ({mse_worst:.6})"
    );
}

#[test]
fn experiment_inner_product_bias() {
    let math = Arithmetic::new(DIM, 42, 99);
    let mut rng = ChaCha8Rng::seed_from_u64(99);
    let n_pairs = 500;

    let configs: Vec<(u8, u8, &str)> = vec![
        (2, 4, "2-bit angle / 4-bit radius"),
        (3, 6, "3-bit angle / 6-bit radius"),
        (4, 8, "4-bit angle / 8-bit radius"),
    ];

    println!("\n{:<32} {:>10} {:>10} {:>12} {:>10}",
        "config", "mean_bias", "std_err", "rel_bias%", "mean|sim|");
    println!("{}", "-".repeat(80));

    for (angle_bits, radius_bits, label) in &configs {
        let comp = Turbo::with(&math, *angle_bits, *radius_bits);

        let mut biases = Vec::with_capacity(n_pairs);
        let mut abs_true_sims = Vec::with_capacity(n_pairs);

        for _ in 0..n_pairs {
            let query = random_unit_vec(DIM, &mut rng);
            let target = random_unit_vec(DIM, &mut rng);

            // True inner product
            let true_sim: f32 = query.iter().zip(&target).map(|(a, b)| a * b).sum();

            // TurboQuant estimated inner product
            let tv = comp.compress(&target);
            let est_sim = comp.similarity_raw(&query, &tv);

            biases.push((est_sim - true_sim) as f64);
            abs_true_sims.push(true_sim.abs() as f64);
        }

        let mean_bias: f64 = biases.iter().sum::<f64>() / n_pairs as f64;
        let variance: f64 = biases.iter()
            .map(|b| (b - mean_bias) * (b - mean_bias))
            .sum::<f64>() / (n_pairs - 1) as f64;
        let std_err = (variance / n_pairs as f64).sqrt();
        let mean_abs_sim: f64 = abs_true_sims.iter().sum::<f64>() / n_pairs as f64;
        let relative_bias_pct = if mean_abs_sim > 1e-10 {
            (mean_bias.abs() / mean_abs_sim) * 100.0
        } else {
            0.0
        };

        println!(
            "{label:<32} {mean_bias:>10.6} {std_err:>10.6} {relative_bias_pct:>11.2}% {mean_abs_sim:>10.4}"
        );

        // The estimator should be approximately unbiased.
        // We allow relative bias up to 15% — the QJL correction reduces bias
        // but at low bit widths there's still some residual.
        assert!(
            relative_bias_pct < 15.0,
            "{label}: relative bias {relative_bias_pct:.2}% exceeds 15% threshold"
        );

        // The mean bias should not be statistically significant at 3σ
        // (i.e., zero should be within the 99.7% confidence interval)
        let ci_bound = 3.0 * std_err;
        assert!(
            mean_bias.abs() < ci_bound + 0.01, // small epsilon for edge cases
            "{label}: mean bias {mean_bias:.6} is >3σ from zero (3σ = {ci_bound:.6})"
        );
    }
}

/// Each coordinate clamped to a range and put into equal bins.
struct NaiveUniformQuantizer {
    bits: u8,
    range: f32,
    dim: usize,
}

impl NaiveUniformQuantizer {
    fn new(dim: usize, bits: u8) -> Self {
        // For unit vectors in dim d, each coordinate concentrates around
        // N(0, 1/sqrt(d)). Use 4σ to cover >99.99%.
        let range = 4.0 / (dim as f32).sqrt();
        Self { bits, range, dim }
    }

    fn quantize_dequantize(&self, vector: &[f32]) -> Vec<f32> {
        let levels = (1u32 << self.bits) as f32;
        vector.iter().map(|&x| {
            let clamped = x.clamp(-self.range, self.range);
            let normalized = (clamped + self.range) / (2.0 * self.range); // [0, 1]
            let bin = (normalized * levels).floor().min(levels - 1.0);
            let center = (bin + 0.5) / levels;          // midpoint of bin
            center * 2.0 * self.range - self.range       // back to original scale
        }).collect()
    }
}

#[test]
fn experiment_baseline_mse_and_ip_tradeoff() {
    let math = Arithmetic::new(DIM, 42, 99);
    let mut rng = ChaCha8Rng::seed_from_u64(42);
    let n_vecs = 300;
    let vecs: Vec<Vec<f32>> = (0..n_vecs).map(|_| random_unit_vec(DIM, &mut rng)).collect();
    let queries: Vec<Vec<f32>> = (0..100).map(|_| random_unit_vec(DIM, &mut rng)).collect();

    // TurboQuant configs
    let turbo_configs: Vec<(u8, u8, &str)> = vec![
        (2, 4, "TQ 2a/4r"),
        (3, 6, "TQ 3a/6r"),
        (4, 8, "TQ 4a/8r"),
    ];

    // Naive configs
    let naive_configs: Vec<(u8, &str)> = vec![
        (2, "Naive 2b"),
        (3, "Naive 3b"),
        (4, "Naive 4b"),
        (6, "Naive 6b"),
        (8, "Naive 8b"),
    ];

    println!("\n{:<14} {:>9} {:>12} {:>12} {:>10}",
        "method", "bits/dim", "recon MSE", "IP MAE", "cos_sim");
    println!("{}", "-".repeat(62));

    // --- TurboQuant entries ---
    for &(ab, rb, label) in &turbo_configs {
        let comp = Turbo::with(&math, ab, rb);
        let bpd = (comp.bytes_per_vector() as f64 * 8.0) / DIM as f64;

        let mut mse_sum = 0.0f64;
        let mut cos_sum = 0.0f64;
        let compressed: Vec<_> = vecs.iter().map(|v| comp.compress(v)).collect();

        for (i, v) in vecs.iter().enumerate() {
            let recon = comp.decompress(&compressed[i]);
            mse_sum += v.iter().zip(&recon)
                .map(|(a, b)| ((a - b) as f64).powi(2))
                .sum::<f64>() / DIM as f64;
            let dot: f32 = v.iter().zip(&recon).map(|(a, b)| a * b).sum();
            let nr: f32 = recon.iter().map(|x| x * x).sum::<f32>().sqrt();
            cos_sum += if nr > 0.0 { (dot / nr) as f64 } else { 0.0 };
        }

        let mut ip_err_sum = 0.0f64;
        for q in &queries {
            let prepared = comp.prepare_query(q);
            for (j, v) in vecs.iter().enumerate() {
                let true_ip: f32 = q.iter().zip(v).map(|(a, b)| a * b).sum();
                let est_ip = comp.similarity_prepared(&prepared, &compressed[j]);
                ip_err_sum += (est_ip - true_ip).abs() as f64;
            }
        }

        let avg_mse = mse_sum / n_vecs as f64;
        let avg_cos = cos_sum / n_vecs as f64;
        let avg_mae = ip_err_sum / (queries.len() * n_vecs) as f64;

        println!("{label:<14} {bpd:>9.2} {avg_mse:>12.8} {avg_mae:>12.8} {avg_cos:>10.4}");

        // Minimum quality: cosine > 0.8 for all configs
        assert!(avg_cos > 0.8, "{label}: cosine {avg_cos:.4} < 0.8");
        // Minimum quality: IP MAE < 0.05 (estimator is useful)
        assert!(avg_mae < 0.05, "{label}: IP MAE {avg_mae:.6} > 0.05");
    }

    // --- Naive entries ---
    for &(bits, label) in &naive_configs {
        let naive = NaiveUniformQuantizer::new(DIM, bits);

        let mut mse_sum = 0.0f64;
        let mut cos_sum = 0.0f64;
        let naive_recons: Vec<Vec<f32>> = vecs.iter()
            .map(|v| naive.quantize_dequantize(v))
            .collect();

        for (i, v) in vecs.iter().enumerate() {
            mse_sum += v.iter().zip(&naive_recons[i])
                .map(|(a, b)| ((a - b) as f64).powi(2))
                .sum::<f64>() / DIM as f64;
            let dot: f32 = v.iter().zip(&naive_recons[i]).map(|(a, b)| a * b).sum();
            let nr: f32 = naive_recons[i].iter().map(|x| x * x).sum::<f32>().sqrt();
            cos_sum += if nr > 0.0 { (dot / nr) as f64 } else { 0.0 };
        }

        let avg_mse = mse_sum / n_vecs as f64;
        let avg_cos = cos_sum / n_vecs as f64;

        // IP MAE for naive
        let mut naive_mae_sum = 0.0f64;
        let mut naive_mae_count = 0usize;
        for q in &queries {
            for (j, v) in vecs.iter().enumerate() {
                let true_ip: f32 = q.iter().zip(v).map(|(a, b)| a * b).sum();
                let est_ip: f32 = q.iter().zip(&naive_recons[j]).map(|(a, b)| a * b).sum();
                naive_mae_sum += (est_ip - true_ip).abs() as f64;
                naive_mae_count += 1;
            }
        }
        let avg_mae = naive_mae_sum / naive_mae_count as f64;

        println!("{label:<14} {bits:>9} {avg_mse:>12.8} {avg_mae:>12.8} {avg_cos:>10.4}");
    }

    println!("\nNote: naive uniform excels at high bits/dim (6-8) where per-coordinate");
    println!("bins are extremely fine. TurboQuant's advantage: calibration-free,");
    println!("unbiased IP estimator, theoretical near-optimal distortion rate.");
}

#[test]
fn experiment_baseline_calibration_robustness() {
    let math = Arithmetic::new(DIM, 42, 99);
    let mut rng = ChaCha8Rng::seed_from_u64(77);
    let n_vecs = 200;
    let n_queries = 30;
    let top_k = 10;

    // Database vectors: unit vectors in dim 384
    let vecs: Vec<Vec<f32>> = (0..n_vecs).map(|_| random_unit_vec(DIM, &mut rng)).collect();

    // TurboQuant: no calibration needed, works for any distribution
    let turbo = Turbo::with(&math, 4, 8);
    let compressed: Vec<_> = vecs.iter().map(|v| turbo.compress(v)).collect();

    // Naive 4-bit with CORRECT range (knows the distribution — best case for naive)
    // At 4 bits (16 levels) miscalibration really hurts because bins are coarse.
    let naive_correct = NaiveUniformQuantizer::new(DIM, 4);
    let naive_correct_recons: Vec<Vec<f32>> = vecs.iter()
        .map(|v| naive_correct.quantize_dequantize(v))
        .collect();

    // Naive 4-bit with WRONG range (miscalibrated — assumes range appropriate
    // for raw [-1, 1] data, 5x too wide for concentrated unit sphere vectors).
    // With 16 levels spread over [-1, 1], only ~3 levels cover the actual
    // ±0.204 data range → severe quantization loss.
    let naive_wrong = NaiveUniformQuantizer {
        bits: 4,
        range: 1.0, // 5x too wide for dim=384 unit vectors
        dim: DIM,
    };
    let naive_wrong_recons: Vec<Vec<f32>> = vecs.iter()
        .map(|v| naive_wrong.quantize_dequantize(v))
        .collect();

    let mut turbo_recall_sum = 0.0f64;
    let mut naive_correct_recall_sum = 0.0f64;
    let mut naive_wrong_recall_sum = 0.0f64;

    for _ in 0..n_queries {
        let query = random_unit_vec(DIM, &mut rng);

        // True top-k
        let mut true_sims: Vec<(usize, f32)> = vecs.iter().enumerate()
            .map(|(i, v)| (i, query.iter().zip(v).map(|(a, b)| a * b).sum()))
            .collect();
        true_sims.sort_by(|a, b| b.1.partial_cmp(&a.1).unwrap());
        let true_topk: Vec<usize> = true_sims[..top_k].iter().map(|(i, _)| *i).collect();

        // TurboQuant top-k
        let prepared = turbo.prepare_query(&query);
        let mut t_sims: Vec<(usize, f32)> = compressed.iter().enumerate()
            .map(|(i, tv)| (i, turbo.similarity_prepared(&prepared, tv)))
            .collect();
        t_sims.sort_by(|a, b| b.1.partial_cmp(&a.1).unwrap());
        let t_topk: Vec<usize> = t_sims[..top_k].iter().map(|(i, _)| *i).collect();

        // Naive correct top-k
        let mut nc_sims: Vec<(usize, f32)> = naive_correct_recons.iter().enumerate()
            .map(|(i, v)| (i, query.iter().zip(v).map(|(a, b)| a * b).sum()))
            .collect();
        nc_sims.sort_by(|a, b| b.1.partial_cmp(&a.1).unwrap());
        let nc_topk: Vec<usize> = nc_sims[..top_k].iter().map(|(i, _)| *i).collect();

        // Naive wrong top-k
        let mut nw_sims: Vec<(usize, f32)> = naive_wrong_recons.iter().enumerate()
            .map(|(i, v)| (i, query.iter().zip(v).map(|(a, b)| a * b).sum()))
            .collect();
        nw_sims.sort_by(|a, b| b.1.partial_cmp(&a.1).unwrap());
        let nw_topk: Vec<usize> = nw_sims[..top_k].iter().map(|(i, _)| *i).collect();

        turbo_recall_sum += true_topk.iter().filter(|i| t_topk.contains(i)).count() as f64 / top_k as f64;
        naive_correct_recall_sum += true_topk.iter().filter(|i| nc_topk.contains(i)).count() as f64 / top_k as f64;
        naive_wrong_recall_sum += true_topk.iter().filter(|i| nw_topk.contains(i)).count() as f64 / top_k as f64;
    }

    let turbo_recall = turbo_recall_sum / n_queries as f64;
    let naive_correct_recall = naive_correct_recall_sum / n_queries as f64;
    let naive_wrong_recall = naive_wrong_recall_sum / n_queries as f64;

    println!("\n--- Calibration robustness: Recall@{top_k} ---");
    println!("TurboQuant (no calibration):         {turbo_recall:.3}");
    println!("Naive Uniform (correct calibration):  {naive_correct_recall:.3}");
    println!("Naive Uniform (WRONG calibration):    {naive_wrong_recall:.3}");

    // TurboQuant should beat miscalibrated naive
    assert!(
        turbo_recall > naive_wrong_recall,
        "TurboQuant ({turbo_recall:.3}) should beat miscalibrated naive ({naive_wrong_recall:.3})"
    );

    // TurboQuant should achieve reasonable recall without calibration
    assert!(
        turbo_recall > 0.6,
        "TurboQuant recall@{top_k} = {turbo_recall:.3}, expected > 0.6"
    );

    // Miscalibrated naive should show significant degradation
    assert!(
        naive_wrong_recall < naive_correct_recall,
        "Wrong calibration should degrade recall: wrong={naive_wrong_recall:.3} vs correct={naive_correct_recall:.3}"
    );
}

#[test]
fn experiment_baseline_comparison_recall() {
    let math = Arithmetic::new(DIM, 42, 99);
    let mut rng = ChaCha8Rng::seed_from_u64(33);
    let n_vecs = 200;
    let n_queries = 30;
    let top_k = 10;

    let vecs: Vec<Vec<f32>> = (0..n_vecs).map(|_| random_unit_vec(DIM, &mut rng)).collect();

    let turbo = Turbo::with(&math, 4, 8);
    let naive = NaiveUniformQuantizer::new(DIM, 8); // give naive MORE bits

    let compressed: Vec<_> = vecs.iter().map(|v| turbo.compress(v)).collect();
    let naive_recons: Vec<Vec<f32>> = vecs.iter().map(|v| naive.quantize_dequantize(v)).collect();

    let mut turbo_recall_sum = 0.0f64;
    let mut naive_recall_sum = 0.0f64;

    for _ in 0..n_queries {
        let query = random_unit_vec(DIM, &mut rng);

        // True top-k
        let mut true_sims: Vec<(usize, f32)> = vecs.iter().enumerate()
            .map(|(i, v)| (i, query.iter().zip(v).map(|(a, b)| a * b).sum()))
            .collect();
        true_sims.sort_by(|a, b| b.1.partial_cmp(&a.1).unwrap());
        let true_topk: Vec<usize> = true_sims[..top_k].iter().map(|(i, _)| *i).collect();

        // TurboQuant top-k
        let prepared = turbo.prepare_query(&query);
        let mut turbo_sims: Vec<(usize, f32)> = compressed.iter().enumerate()
            .map(|(i, tv)| (i, turbo.similarity_prepared(&prepared, tv)))
            .collect();
        turbo_sims.sort_by(|a, b| b.1.partial_cmp(&a.1).unwrap());
        let turbo_topk: Vec<usize> = turbo_sims[..top_k].iter().map(|(i, _)| *i).collect();

        // Naive top-k
        let mut naive_sims: Vec<(usize, f32)> = naive_recons.iter().enumerate()
            .map(|(i, v)| (i, query.iter().zip(v).map(|(a, b)| a * b).sum()))
            .collect();
        naive_sims.sort_by(|a, b| b.1.partial_cmp(&a.1).unwrap());
        let naive_topk: Vec<usize> = naive_sims[..top_k].iter().map(|(i, _)| *i).collect();

        let turbo_overlap = true_topk.iter().filter(|i| turbo_topk.contains(i)).count();
        let naive_overlap = true_topk.iter().filter(|i| naive_topk.contains(i)).count();

        turbo_recall_sum += turbo_overlap as f64 / top_k as f64;
        naive_recall_sum += naive_overlap as f64 / top_k as f64;
    }

    let turbo_recall = turbo_recall_sum / n_queries as f64;
    let naive_recall = naive_recall_sum / n_queries as f64;

    println!("\n--- Recall@{top_k} comparison ({n_vecs} vectors, {n_queries} queries) ---");
    println!("TurboQuant (~7.2 bits/dim): recall@{top_k} = {turbo_recall:.3}");
    println!("Naive Uniform (8 bits/dim): recall@{top_k} = {naive_recall:.3}");

    // TurboQuant should achieve competitive recall even at fewer bits
    assert!(
        turbo_recall >= naive_recall * 0.8,
        "TurboQuant recall ({turbo_recall:.3}) should be within 80% of naive ({naive_recall:.3})"
    );
    // And both should be above a minimum bar
    assert!(
        turbo_recall > 0.3,
        "TurboQuant recall@{top_k} = {turbo_recall:.3}, expected > 0.3"
    );
}

struct PQConfig {
    angle_bits: u8,
    radius_bits: u8,
    label: &'static str,
}

struct LMConfig {
    bits: u8,
    label: &'static str,
}

fn pq_configs() -> Vec<PQConfig> {
    vec![
        PQConfig { angle_bits: 2, radius_bits: 2, label: "PQ 2a/2r" },
        PQConfig { angle_bits: 2, radius_bits: 4, label: "PQ 2a/4r" },
        PQConfig { angle_bits: 3, radius_bits: 4, label: "PQ 3a/4r" },
        PQConfig { angle_bits: 3, radius_bits: 6, label: "PQ 3a/6r" },
        PQConfig { angle_bits: 4, radius_bits: 6, label: "PQ 4a/6r" },
        PQConfig { angle_bits: 4, radius_bits: 8, label: "PQ 4a/8r" },
    ]
}

fn lm_configs() -> Vec<LMConfig> {
    vec![
        LMConfig { bits: 1, label: "LM 1-bit" },
        LMConfig { bits: 2, label: "LM 2-bit" },
        LMConfig { bits: 3, label: "LM 3-bit" },
        LMConfig { bits: 4, label: "LM 4-bit" },
        LMConfig { bits: 6, label: "LM 6-bit" },
        LMConfig { bits: 8, label: "LM 8-bit" },
    ]
}

fn per_dim_mse(a: &[f32], b: &[f32]) -> f64 {
    a.iter()
        .zip(b)
        .map(|(x, y)| ((x - y) as f64).powi(2))
        .sum::<f64>()
        / a.len() as f64
}

fn cosine_sim(a: &[f32], b: &[f32]) -> f64 {
    let dot: f32 = a.iter().zip(b).map(|(x, y)| x * y).sum();
    let nb: f32 = b.iter().map(|x| x * x).sum::<f32>().sqrt();
    if nb > 0.0 { (dot / nb) as f64 } else { 0.0 }
}

fn measure_reconstruction(
    comp: &Turbo,
    vecs: &[Vec<f32>],
) -> (f64, f64) {
    let mut mse_sum = 0.0f64;
    let mut cos_sum = 0.0f64;
    for v in vecs {
        let tv = comp.compress(v);
        let recon = comp.decompress(&tv);
        mse_sum += per_dim_mse(v, &recon);
        cos_sum += cosine_sim(v, &recon);
    }
    (mse_sum / vecs.len() as f64, cos_sum / vecs.len() as f64)
}

fn measure_reconstruction_lm(
    comp: &Lloyd,
    vecs: &[Vec<f32>],
) -> (f64, f64) {
    let mut mse_sum = 0.0f64;
    let mut cos_sum = 0.0f64;
    for v in vecs {
        let lv = comp.compress(v);
        let recon = comp.decompress(&lv);
        mse_sum += per_dim_mse(v, &recon);
        cos_sum += cosine_sim(v, &recon);
    }
    (mse_sum / vecs.len() as f64, cos_sum / vecs.len() as f64)
}

#[test]
fn head_to_head_reconstruction_quality() {
    let math = Arithmetic::new(DIM, 42, 99);
    let mut rng = ChaCha8Rng::seed_from_u64(42);
    let n_vecs = 300;
    let vecs: Vec<Vec<f32>> = (0..n_vecs).map(|_| random_unit_vec(DIM, &mut rng)).collect();

    println!("\n============================================================");
    println!("  RECONSTRUCTION QUALITY: PolarQuant vs Lloyd-Max ({DIM}-dim)");
    println!("============================================================\n");
    println!(
        "{:<12} {:>10} {:>10} {:>12} {:>10}",
        "method", "bytes/vec", "bits/dim", "recon MSE", "avg cos"
    );
    println!("{}", "-".repeat(58));

    // --- PolarQuant configs ---
    for cfg in pq_configs() {
        let comp = Turbo::with(&math, cfg.angle_bits, cfg.radius_bits);
        let bpv = comp.bytes_per_vector();
        let bpd = (bpv as f64 * 8.0) / DIM as f64;

        let (mse, cos) = measure_reconstruction(&comp, &vecs);
        println!(
            "{:<12} {:>10} {:>10.2} {:>12.8} {:>10.4}",
            cfg.label, bpv, bpd, mse, cos
        );
    }

    println!("{}", "-".repeat(58));

    // --- Lloyd-Max configs ---
    for cfg in lm_configs() {
        let comp = Lloyd::with(&math, cfg.bits);
        let bpv = comp.bytes_per_vector();
        let bpd = (bpv as f64 * 8.0) / DIM as f64;

        let (mse, cos) = measure_reconstruction_lm(&comp, &vecs);
        println!(
            "{:<12} {:>10} {:>10.2} {:>12.8} {:>10.4}",
            cfg.label, bpv, bpd, mse, cos
        );
    }

    println!();
}

#[test]
fn head_to_head_inner_product_accuracy() {
    let math = Arithmetic::new(DIM, 42, 99);
    let mut rng = ChaCha8Rng::seed_from_u64(55);
    let n_pairs = 400;

    let queries: Vec<Vec<f32>> = (0..n_pairs).map(|_| random_unit_vec(DIM, &mut rng)).collect();
    let targets: Vec<Vec<f32>> = (0..n_pairs).map(|_| random_unit_vec(DIM, &mut rng)).collect();

    let true_ips: Vec<f32> = queries
        .iter()
        .zip(&targets)
        .map(|(q, t)| q.iter().zip(t).map(|(a, b)| a * b).sum())
        .collect();

    println!("\n============================================================");
    println!("  INNER PRODUCT ACCURACY: PolarQuant vs Lloyd-Max ({DIM}-dim)");
    println!("============================================================\n");
    println!(
        "{:<12} {:>10} {:>10} {:>12} {:>10}",
        "method", "bytes/vec", "bits/dim", "IP MAE", "IP bias"
    );
    println!("{}", "-".repeat(58));

    // PolarQuant
    for cfg in pq_configs() {
        let comp = Turbo::with(&math, cfg.angle_bits, cfg.radius_bits);
        let bpv = comp.bytes_per_vector();
        let bpd = (bpv as f64 * 8.0) / DIM as f64;

        let mut errors = Vec::with_capacity(n_pairs);
        for (i, (q, t)) in queries.iter().zip(&targets).enumerate() {
            let tv = comp.compress(t);
            let est = comp.similarity_raw(q, &tv);
            errors.push((est - true_ips[i]) as f64);
        }

        let mae: f64 = errors.iter().map(|e| e.abs()).sum::<f64>() / n_pairs as f64;
        let bias: f64 = errors.iter().sum::<f64>() / n_pairs as f64;
        println!(
            "{:<12} {:>10} {:>10.2} {:>12.6} {:>+10.6}",
            cfg.label, bpv, bpd, mae, bias
        );
    }

    println!("{}", "-".repeat(58));

    // Lloyd-Max
    for cfg in lm_configs() {
        let comp = Lloyd::with(&math, cfg.bits);
        let bpv = comp.bytes_per_vector();
        let bpd = (bpv as f64 * 8.0) / DIM as f64;

        let mut errors = Vec::with_capacity(n_pairs);
        for (i, (q, t)) in queries.iter().zip(&targets).enumerate() {
            let lv = comp.compress(t);
            let est = comp.similarity_raw(q, &lv);
            errors.push((est - true_ips[i]) as f64);
        }

        let mae: f64 = errors.iter().map(|e| e.abs()).sum::<f64>() / n_pairs as f64;
        let bias: f64 = errors.iter().sum::<f64>() / n_pairs as f64;
        println!(
            "{:<12} {:>10} {:>10.2} {:>12.6} {:>+10.6}",
            cfg.label, bpv, bpd, mae, bias
        );
    }

    println!();
}

#[test]
fn head_to_head_recall() {
    let math = Arithmetic::new(DIM, 42, 99);
    let mut rng = ChaCha8Rng::seed_from_u64(33);
    let n_vecs = 200;
    let n_queries = 30;
    let top_k = 10;

    let vecs: Vec<Vec<f32>> = (0..n_vecs).map(|_| random_unit_vec(DIM, &mut rng)).collect();
    let queries: Vec<Vec<f32>> =
        (0..n_queries).map(|_| random_unit_vec(DIM, &mut rng)).collect();

    // True top-k for each query
    let true_topks: Vec<Vec<usize>> = queries
        .iter()
        .map(|q| {
            let mut sims: Vec<(usize, f32)> = vecs
                .iter()
                .enumerate()
                .map(|(i, v)| (i, q.iter().zip(v).map(|(a, b)| a * b).sum()))
                .collect();
            sims.sort_by(|a, b| b.1.partial_cmp(&a.1).unwrap());
            sims[..top_k].iter().map(|(i, _)| *i).collect()
        })
        .collect();

    println!("\n============================================================");
    println!("  RECALL@{top_k}: PolarQuant vs Lloyd-Max ({DIM}-dim, {n_vecs} vecs)");
    println!("============================================================\n");
    println!(
        "{:<12} {:>10} {:>10} {:>12}",
        "method", "bytes/vec", "bits/dim", "recall@10"
    );
    println!("{}", "-".repeat(46));

    // Subset of configs to keep test fast
    let pq_test = vec![
        PQConfig { angle_bits: 2, radius_bits: 4, label: "PQ 2a/4r" },
        PQConfig { angle_bits: 3, radius_bits: 6, label: "PQ 3a/6r" },
        PQConfig { angle_bits: 4, radius_bits: 8, label: "PQ 4a/8r" },
    ];

    let lm_test = vec![
        LMConfig { bits: 2, label: "LM 2-bit" },
        LMConfig { bits: 3, label: "LM 3-bit" },
        LMConfig { bits: 4, label: "LM 4-bit" },
    ];

    for cfg in &pq_test {
        let comp = Turbo::with(&math, cfg.angle_bits, cfg.radius_bits);
        let bpv = comp.bytes_per_vector();
        let bpd = (bpv as f64 * 8.0) / DIM as f64;

        let compressed: Vec<_> = vecs.iter().map(|v| comp.compress(v)).collect();
        let mut recall_sum = 0.0f64;

        for (qi, q) in queries.iter().enumerate() {
            let prepared = comp.prepare_query(q);
            let mut sims: Vec<(usize, f32)> = compressed
                .iter()
                .enumerate()
                .map(|(i, tv)| (i, comp.similarity_prepared(&prepared, tv)))
                .collect();
            sims.sort_by(|a, b| b.1.partial_cmp(&a.1).unwrap());
            let est_topk: Vec<usize> = sims[..top_k].iter().map(|(i, _)| *i).collect();
            let overlap = true_topks[qi]
                .iter()
                .filter(|i| est_topk.contains(i))
                .count();
            recall_sum += overlap as f64 / top_k as f64;
        }

        let recall = recall_sum / n_queries as f64;
        println!(
            "{:<12} {:>10} {:>10.2} {:>12.3}",
            cfg.label, bpv, bpd, recall
        );
    }

    println!("{}", "-".repeat(46));

    for cfg in &lm_test {
        let comp = Lloyd::with(&math, cfg.bits);
        let bpv = comp.bytes_per_vector();
        let bpd = (bpv as f64 * 8.0) / DIM as f64;

        let compressed: Vec<_> = vecs.iter().map(|v| comp.compress(v)).collect();
        let mut recall_sum = 0.0f64;

        for (qi, q) in queries.iter().enumerate() {
            let prepared = comp.prepare_query(q);
            let mut sims: Vec<(usize, f32)> = compressed
                .iter()
                .enumerate()
                .map(|(i, lv)| (i, comp.similarity_prepared(&prepared, lv)))
                .collect();
            sims.sort_by(|a, b| b.1.partial_cmp(&a.1).unwrap());
            let est_topk: Vec<usize> = sims[..top_k].iter().map(|(i, _)| *i).collect();
            let overlap = true_topks[qi]
                .iter()
                .filter(|i| est_topk.contains(i))
                .count();
            recall_sum += overlap as f64 / top_k as f64;
        }

        let recall = recall_sum / n_queries as f64;
        println!(
            "{:<12} {:>10} {:>10.2} {:>12.3}",
            cfg.label, bpv, bpd, recall
        );
    }

    println!();
}

#[test]
fn head_to_head_compression_summary() {
    let math = Arithmetic::new(DIM, 42, 99);
    let raw_bytes = DIM * 4;

    println!("\n============================================================");
    println!("  COMPRESSION SUMMARY: all configs ({DIM}-dim, f32 = {raw_bytes} bytes)");
    println!("============================================================\n");
    println!(
        "{:<12} {:>7} {:>10} {:>10} {:>12}",
        "method", "q-bits", "bytes/vec", "bits/dim", "ratio"
    );
    println!("{}", "-".repeat(55));

    for cfg in pq_configs() {
        let comp = Turbo::with(&math, cfg.angle_bits, cfg.radius_bits);
        let bpv = comp.bytes_per_vector();
        let bpd = (bpv as f64 * 8.0) / DIM as f64;
        let ratio = raw_bytes as f64 / bpv as f64;
        let q_bits = format!("{}a+{}r", cfg.angle_bits, cfg.radius_bits);
        println!(
            "{:<12} {:>7} {:>10} {:>10.2} {:>11.1}x",
            cfg.label, q_bits, bpv, bpd, ratio
        );
    }

    println!("{}", "-".repeat(55));

    for cfg in lm_configs() {
        let comp = Lloyd::with(&math, cfg.bits);
        let bpv = comp.bytes_per_vector();
        let bpd = (bpv as f64 * 8.0) / DIM as f64;
        let ratio = raw_bytes as f64 / bpv as f64;
        println!(
            "{:<12} {:>7} {:>10} {:>10.2} {:>11.1}x",
            cfg.label, cfg.bits, bpv, bpd, ratio
        );
    }

    println!();
}

#[test]
fn a_correction_adds_and_takes_by_the_signs() {
    let signs = BitVector(vec![0b0000_0101, 0b1]);
    let projected = scalars(&[1.0, 2.0, 4.0, 8.0, 16.0, 32.0, 64.0, 128.0, 256.0]);
    let step = |s: Scalar, b: bool, p: Scalar| {
        scalar(if b { float(s) + float(p) } else { float(s) - float(p) })
    };
    let scale = |n: Scalar, s: Scalar| scalar(float(n) * float(s));
    let nine = residual_correction(&signs, scalar(2.0), &projected, 9, &step, &scale);
    // 1 - 2 + 4 - 8 - 16 - 32 - 64 - 128 + 256 = 11
    assert_eq!(float(nine), 22.0);
    let three = residual_correction(&signs, scalar(2.0), &projected, 3, &step, &scale);
    assert_eq!(float(three), 6.0);
    // A residual this short is not corrected for.
    for norm in [1e-10f32, 0.0, -1.0, f32::NAN] {
        let none = residual_correction(&signs, scalar(norm), &projected, 9, &step, &scale);
        assert_eq!(none.to_bits(), 0);
    }
}

#[test]
fn a_vector_of_zeros_has_no_length_and_no_likeness() {
    let lloyd = Lloyd::new(16, 1, 2, 4);
    let lv = lloyd.compress(&[0.0; 16]);
    assert_eq!(float(lv.original_norm), 0.0);
    assert_eq!(lv.byte_size(), lloyd.bytes_per_vector());
    assert_eq!(lloyd.similarity_raw(&[1.0; 16], &lv), 0.0);
    let turbo = Turbo::new(16, 1, 2, 4, 8);
    let tv = turbo.compress(&[0.0; 16]);
    assert_eq!(tv.byte_size(), turbo.bytes_per_vector());
    assert_eq!(turbo.decompress(&tv), vec![0.0; 16]);
}

#[test]
fn every_compressed_vector_has_the_size_of_its_compressor() {
    let mut rng = ChaCha8Rng::seed_from_u64(5);
    for dim in [1usize, 7, 16, 33] {
        let math = Arithmetic::new(dim, 3, 4);
        let v = random_unit_vec(dim, &mut rng);
        for bits in 1..=8u8 {
            let lloyd = Lloyd::with(&math, bits);
            assert_eq!(lloyd.compress(&v).byte_size(), lloyd.bytes_per_vector());
            let turbo = Turbo::with(&math, bits, bits);
            assert_eq!(turbo.compress(&v).byte_size(), turbo.bytes_per_vector());
        }
    }
}

#[test]
fn a_prepared_query_gives_the_raw_similarity() {
    let mut rng = ChaCha8Rng::seed_from_u64(6);
    let lloyd = Lloyd::new(32, 42, 99, 4);
    assert_eq!(lloyd.comp.dim(), 32);
    assert_eq!(lloyd.comp.lloyd_max().bits(), 4);
    let query = random_unit_vec(32, &mut rng);
    let lv = lloyd.compress(&random_unit_vec(32, &mut rng));
    let prepared = lloyd.prepare_query(&query);
    assert_eq!(lloyd.similarity_prepared(&prepared, &lv), lloyd.similarity_raw(&query, &lv));
}

#[test]
fn sizes_of_the_scalar_compressor_by_bits() {
    for (bits, size) in [(1u8, 104usize), (2, 152), (3, 200), (4, 248), (6, 344)] {
        let comp = LloydMaxCompressor::new(quantizer(DIM, bits));
        assert_eq!(comp.bytes_per_vector(), size);
    }
}

#[test]
fn only_the_direction_is_quantized() {
    let dim = 64;
    let mut rng = ChaCha8Rng::seed_from_u64(22);
    let v = random_unit_vec(dim, &mut rng);
    let double: Vec<f32> = v.iter().map(|x| 2.0 * x).collect();
    let math = Arithmetic::new(dim, 5, 6);
    let comp = LloydMaxCompressor::new(quantizer(dim, 4));
    let compressed = |x: &[f32]| {
        comp.compress(
            &scalars(x),
            |y: &[Scalar]| math.rotate_unit(y),
            |a: &[Scalar], b: &[Scalar]| math.residual(a, b),
            |y: &[Scalar]| math.project(y),
        )
    };
    let (one, two) = (compressed(&v), compressed(&double));
    assert_eq!(one.scalar.data, two.scalar.data);
    assert_eq!(one.residual_signs.0, two.residual_signs.0);
    assert_eq!(float(one.residual_norm), float(two.residual_norm));
    assert_eq!(2.0 * float(one.original_norm), float(two.original_norm));
}
