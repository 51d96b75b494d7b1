//! The storage file, the index over it, and the two-stage search.
#![allow(dead_code)]

use std::rc::Rc;

use ndarray::{Array1, Array2};
use rand::SeedableRng;
use rand_chacha::ChaCha8Rng;
use rand_distr::{Distribution, Normal};
use turboquant::bytes::{push_u32, read_u32};
use turboquant::compression::centroids::compute_lloyd_max_centroids;
use turboquant::compression::lloyd_max::{LloydMaxQuantizer, ScalarQuantVector};
use turboquant::compression::qjl::{BitVector, QjlCompressor};
use turboquant::compression::turboquant_mse::{TqMseCompressor, TqMseVector};
use turboquant::error::TurboError;
use turboquant::index::{IndexFiles, SearchResult, TurboIndex};
use turboquant::meta::IndexMeta;
use turboquant::scalar::Scalar;
use turboquant::search::two_stage_search;
use turboquant::storage::{IndexHeader, VectorStorage, HEADER_SIZE, METADATA_SIZE};
use turboquant::turboquant::{LloydMaxCompressor, LloydMaxVector, PreparedQuery};

const DIM: usize = 384;

fn scalar(x: f32) -> Scalar {
    Scalar::from_bits(x.to_bits())
}

fn float(s: Scalar) -> f32 {
    f32::from_bits(s.to_bits())
}

fn scalars(v: &[f32]) -> Vec<Scalar> {
    v.iter().map(|&x| scalar(x)).collect()
}

fn floats(v: &[Scalar]) -> Vec<f32> {
    v.iter().map(|&s| float(s)).collect()
}

fn inner(a: &[Scalar], b: &[Scalar]) -> Scalar {
    scalar(a.iter().zip(b).map(|(x, y)| float(*x) * float(*y)).sum())
}

fn norm_of(v: &[f32]) -> f32 {
    v.iter().map(|x| x * x).sum::<f32>().sqrt()
}

fn random_unit_vec(dim: usize, rng: &mut ChaCha8Rng) -> Vec<f32> {
    let normal = Normal::new(0.0, 1.0f64).unwrap();
    let raw: Vec<f32> = (0..dim).map(|_| normal.sample(rng) as f32).collect();
    let norm = norm_of(&raw);
    raw.iter().map(|v| v / norm).collect()
}

/// A random orthogonal matrix.
fn orthogonal(dim: usize, seed: u64) -> Array2<f32> {
    let mut rng = ChaCha8Rng::seed_from_u64(seed);
    let normal = Normal::new(0.0, 1.0f64).unwrap();
    let data: Vec<f32> = (0..dim * dim).map(|_| normal.sample(&mut rng) as f32).collect();
    let mut q = Array2::from_shape_vec((dim, dim), data).unwrap();
    for i in 0..dim {
        let norm: f32 = q.column(i).dot(&q.column(i)).sqrt();
        if norm > 1e-10 {
            let inverse = 1.0 / norm;
            for r in 0..dim {
                q[[r, i]] *= inverse;
            }
        }
        for j in (i + 1)..dim {
            let proj: f32 = q.column(i).dot(&q.column(j));
            for r in 0..dim {
                q[[r, j]] -= proj * q[[r, i]];
            }
        }
    }
    q
}

/// A matrix of independent normal entries.
fn gaussian(dim: usize, seed: u64) -> Array2<f32> {
    let mut rng = ChaCha8Rng::seed_from_u64(seed);
    let normal = Normal::new(0.0, (1.0 / dim as f64).sqrt()).unwrap();
    let data: Vec<f32> = (0..dim * dim).map(|_| normal.sample(&mut rng) as f32).collect();
    Array2::from_shape_vec((dim, dim), data).unwrap()
}

fn times(m: &Array2<f32>, v: &[Scalar]) -> Vec<Scalar> {
    let x = Array1::from_vec(floats(v));
    scalars(&m.dot(&x).to_vec())
}

fn times_transposed(m: &Array2<f32>, v: &[Scalar]) -> Vec<f32> {
    let x = Array1::from_vec(floats(v));
    m.t().dot(&x).to_vec()
}

/// The arithmetic that the compressors are given.
#[derive(Clone)]
struct Arithmetic {
    dim: usize,
    rotation: Rc<Array2<f32>>,
    projection: Rc<Array2<f32>>,
}

impl Arithmetic {
    fn new(dim: usize, rotation_seed: u64, qjl_seed: u64) -> Arithmetic {
        Arithmetic {
            dim,
            rotation: Rc::new(orthogonal(dim, rotation_seed)),
            projection: Rc::new(gaussian(dim, qjl_seed)),
        }
    }

    fn rotate_unit(&self, v: &[Scalar]) -> (Vec<Scalar>, Scalar) {
        let raw = floats(v);
        let norm = norm_of(&raw);
        let unit: Vec<f32> = if norm > 1e-10 {
            raw.iter().map(|x| x / norm).collect()
        } else {
            vec![0.0; self.dim]
        };
        (times(&self.rotation, &scalars(&unit)), scalar(norm))
    }

    fn rotate(&self, v: &[Scalar]) -> Vec<Scalar> {
        times(&self.rotation, v)
    }

    fn project(&self, v: &[Scalar]) -> Vec<Scalar> {
        times(&self.projection, v)
    }

    fn residual(&self, a: &[Scalar], b: &[Scalar]) -> (Vec<Scalar>, Scalar) {
        let rest: Vec<f32> = a.iter().zip(b).map(|(x, y)| float(*x) - float(*y)).collect();
        let norm = norm_of(&rest);
        (scalars(&rest), scalar(norm))
    }

    fn restore(&self, y: &[Scalar], norm: Scalar) -> Vec<Scalar> {
        let x = times_transposed(&self.rotation, y);
        x.iter().map(|v| scalar(v * float(norm))).collect()
    }

    fn signed(&self, sum: Scalar, positive: bool, p: Scalar) -> Scalar {
        let sign = if positive { 1.0f32 } else { -1.0f32 };
        scalar(float(sum) + sign * float(p))
    }

    fn weighted(&self, norm: Scalar, sum: Scalar) -> Scalar {
        let scale = float(norm) * (std::f32::consts::PI / (2.0 * self.dim as f32)).sqrt();
        scalar(scale * float(sum))
    }

    fn whole(&self, norm: Scalar, similarity: Scalar, correction: Scalar) -> Scalar {
        scalar(float(norm) * (float(similarity) + float(correction)))
    }
}

fn gaussian_pdf(x: f32, sigma: f32) -> f32 {
    let coeff = 1.0 / (sigma * (2.0 * std::f32::consts::PI).sqrt());
    let exponent = -(x * x) / (2.0 * sigma * sigma);
    coeff * exponent.exp()
}

fn gaussian_conditional_mean(a: f32, b: f32, sigma: f32, n_points: usize) -> (f64, f64) {
    let h = (b - a) as f64 / n_points as f64;
    let mut num = 0.0f64;
    let mut den = 0.0f64;
    for i in 0..=n_points {
        let x = a as f64 + i as f64 * h;
        let p = gaussian_pdf(x as f32, sigma) as f64;
        let weight = if i == 0 || i == n_points { 0.5 } else { 1.0 };
        num += weight * x * p;
        den += weight * p;
    }
    (num * h, den * h)
}

fn spaced(range: f32, i: usize, n: usize) -> Scalar {
    scalar(-range + (2.0 * range) * (i as f32 + 0.5) / n as f32)
}

fn halfway(a: Scalar, b: Scalar) -> Scalar {
    scalar(0.5 * (float(a) + float(b)))
}

fn mean_between(sigma: f32, lo: Scalar, hi: Scalar) -> Option<Scalar> {
    let (num, den) = gaussian_conditional_mean(float(lo), float(hi), sigma, 200);
    if den.abs() > 1e-15 {
        Some(scalar((num / den) as f32))
    } else {
        None
    }
}

fn widened(most: Scalar, new: Scalar, old: Scalar) -> Scalar {
    scalar(float(most).max((float(new) - float(old)).abs()))
}

fn centroids_for(sigma: f32, bits: u8) -> Vec<f32> {
    let range = 5.0 * sigma;
    floats(&compute_lloyd_max_centroids(
        bits,
        scalar(-range),
        scalar(range),
        &|i: usize, n: usize| spaced(range, i, n),
        &halfway,
        &|lo: Scalar, hi: Scalar| mean_between(sigma, lo, hi),
        &widened,
    ))
}

fn quantizer(dim: usize, bits: u8) -> LloydMaxQuantizer {
    let sigma = 1.0 / (dim as f32).sqrt();
    let range = 5.0 * sigma;
    LloydMaxQuantizer::new(
        dim,
        bits,
        scalar(-range),
        scalar(range),
        |i: usize, n: usize| spaced(range, i, n),
        halfway,
        |lo: Scalar, hi: Scalar| mean_between(sigma, lo, hi),
        widened,
    )
}

/// A scalar compressor with its arithmetic.
struct Lloyd {
    comp: LloydMaxCompressor,
    math: Arithmetic,
}

impl Lloyd {
    fn new(dim: usize, rotation_seed: u64, qjl_seed: u64, bits: u8) -> Lloyd {
        Lloyd::with(&Arithmetic::new(dim, rotation_seed, qjl_seed), bits)
    }

    fn with(math: &Arithmetic, bits: u8) -> Lloyd {
        Lloyd { comp: LloydMaxCompressor::new(quantizer(math.dim, bits)), math: math.clone() }
    }

    fn bytes_per_vector(&self) -> usize {
        self.comp.bytes_per_vector()
    }

    fn compress(&self, v: &[f32]) -> LloydMaxVector {
        self.comp.compress(
            &scalars(v),
            |x: &[Scalar]| self.math.rotate_unit(x),
            |a: &[Scalar], b: &[Scalar]| self.math.residual(a, b),
            |x: &[Scalar]| self.math.project(x),
        )
    }

    fn decompress(&self, lv: &LloydMaxVector) -> Vec<f32> {
        floats(&self.comp.decompress(lv, |y: &[Scalar], n: Scalar| self.math.restore(y, n)))
    }

    fn prepare_query(&self, query: &[f32]) -> PreparedQuery {
        self.comp.prepare_query(
            &scalars(query),
            |x: &[Scalar]| self.math.rotate(x),
            |x: &[Scalar]| self.math.project(x),
        )
    }

    fn similarity_prepared(&self, prepared: &PreparedQuery, lv: &LloydMaxVector) -> f32 {
        float(self.comp.similarity_prepared(
            prepared,
            lv,
            &inner,
            &|s: Scalar, b: bool, p: Scalar| self.math.signed(s, b, p),
            &|n: Scalar, s: Scalar| self.math.weighted(n, s),
            &|n: Scalar, s: Scalar, c: Scalar| self.math.whole(n, s, c),
        ))
    }

    fn similarity_raw(&self, query: &[f32], lv: &LloydMaxVector) -> f32 {
        float(self.comp.similarity_raw(
            &scalars(query),
            lv,
            |x: &[Scalar]| self.math.rotate(x),
            |x: &[Scalar]| self.math.project(x),
            &inner,
            &|s: Scalar, b: bool, p: Scalar| self.math.signed(s, b, p),
            &|n: Scalar, s: Scalar| self.math.weighted(n, s),
            &|n: Scalar, s: Scalar, c: Scalar| self.math.whole(n, s, c),
        ))
    }
}

/// An index, its two files and its arithmetic.
struct Held {
    index: TurboIndex,
    files: IndexFiles,
    math: Arithmetic,
}

impl Held {
    fn create(dim: usize, rotation_seed: u64, qjl_seed: u64) -> Held {
        let (index, files) = TurboIndex::create(dim, rotation_seed, qjl_seed, quantizer);
        Held { index, files, math: Arithmetic::new(dim, rotation_seed, qjl_seed) }
    }

    fn create_with_bits(dim: usize, rotation_seed: u64, qjl_seed: u64, bits: u8) -> Held {
        let (index, files) = TurboIndex::create_with_bits(dim, rotation_seed, qjl_seed, bits, quantizer);
        Held { index, files, math: Arithmetic::new(dim, rotation_seed, qjl_seed) }
    }

    fn open(files: IndexFiles) -> Result<Held, TurboError> {
        let meta = IndexMeta::from_bytes(&files.meta)?;
        let index = TurboIndex::open(&files.meta, &files.storage, quantizer)?;
        let math = Arithmetic::new(meta.dim, meta.rotation_seed, meta.qjl_seed);
        Ok(Held { index, files, math })
    }

    fn insert(&mut self, id: u64, v: &[f32]) -> Result<(), TurboError> {
        let math = &self.math;
        let inserted = self.index.insert(
            id,
            &scalars(v),
            |x: &[Scalar]| math.rotate_unit(x),
            |a: &[Scalar], b: &[Scalar]| math.residual(a, b),
            |x: &[Scalar]| math.project(x),
        )?;
        inserted.append.apply(&mut self.files.storage);
        self.files.meta = inserted.meta;
        Ok(())
    }

    fn delete(&mut self, id: u64) -> Result<(), TurboError> {
        self.files.meta = self.index.delete(id)?;
        Ok(())
    }

    fn search(&self, query: &[f32], top_k: usize) -> Vec<SearchResult> {
        self.index.search(
            &self.files.storage,
            &scalars(query),
            top_k,
            |x: &[Scalar]| self.math.rotate(x),
            |x: &[Scalar]| self.math.project(x),
            &inner,
            &|s: Scalar, b: bool, p: Scalar| self.math.signed(s, b, p),
            &|n: Scalar, s: Scalar| self.math.weighted(n, s),
            &|n: Scalar, s: Scalar, c: Scalar| self.math.whole(n, s, c),
        )
    }

    fn compact(&mut self) -> Result<(), TurboError> {
        if let Some(files) = self.index.compact(&self.files.storage)? {
            self.files = files;
        }
        Ok(())
    }
}

fn unit_vec(dim: usize, idx: usize) -> Vec<f32> {
    let mut v = vec![0.0f32; dim];
    v[idx] = 1.0;
    v
}

fn copy_of(files: &IndexFiles) -> IndexFiles {
    IndexFiles { storage: files.storage.clone(), meta: files.meta.clone() }
}

#[test]
fn test_storage_roundtrip() {
    let dim = 32;

    let comp = Lloyd::new(dim, 42, 99, 4);
    let mut v = vec![0.0f32; dim];
    v[0] = 1.0;
    let lv = comp.compress(&v);

    let file: Vec<u8> = {
        let (mut storage, mut file) = VectorStorage::create(dim, 4);
        storage.append(&lv).unwrap().apply(&mut file);
        storage.append(&lv).unwrap().apply(&mut file);
        assert_eq!(storage.len(), 2);
        file
    };

    {
        let storage = VectorStorage::open(&file).unwrap();
        assert_eq!(storage.len(), 2);
        let loaded = storage.get(&file, 0);
        assert_eq!(loaded.scalar.data, lv.scalar.data);
        assert_eq!(loaded.residual_signs.0, lv.residual_signs.0);
        assert_eq!(float(loaded.residual_norm), float(lv.residual_norm));
        assert_eq!(float(loaded.original_norm), float(lv.original_norm));
    }
}

#[test]
fn test_get_all() {
    let dim = 16;

    let comp = Lloyd::new(dim, 10, 20, 3);

    let (mut storage, mut file) = VectorStorage::create(dim, 3);
    for i in 0..5 {
        let mut v = vec![0.0f32; dim];
        v[i % dim] = 1.0;
        storage.append(&comp.compress(&v)).unwrap().apply(&mut file);
    }

    let all = storage.get_all(&file);
    assert_eq!(all.len(), 5);
}

#[test]
fn verify_storage_file_sizes() {
    let mut rng = ChaCha8Rng::seed_from_u64(1);
    let n = 100usize;
    let bits = 4u8;

    let comp = Lloyd::new(DIM, 42, 99, bits);
    let bpv = comp.bytes_per_vector();
    let (mut storage, mut file) = VectorStorage::create(DIM, bits);
    for _ in 0..n {
        let v = random_unit_vec(DIM, &mut rng);
        storage.append(&comp.compress(&v)).unwrap().apply(&mut file);
    }

    let file_size = file.len();
    let expected = 16 + 5 + n * bpv; // header(16) + metadata(5) + data
    assert_eq!(file_size, expected, "file: {file_size} bytes, expected {expected}");
}

#[test]
fn a_header_is_sixteen_little_endian_bytes() {
    let header = IndexHeader { magic: [1, 2, 3, 4], version: 7, num_vectors: 0x0102_0304, bytes_per_vector: 248 };
    let bytes = header.to_bytes();
    assert_eq!(bytes, vec![1, 2, 3, 4, 7, 0, 0, 0, 4, 3, 2, 1, 248, 0, 0, 0]);
    let back = IndexHeader::from_bytes(&bytes);
    assert_eq!(back.magic, [1, 2, 3, 4]);
    assert_eq!((back.version, back.num_vectors, back.bytes_per_vector), (7, 0x0102_0304, 248));
    assert_eq!((HEADER_SIZE, METADATA_SIZE), (16, 5));
}

#[test]
fn integers_are_written_low_byte_first() {
    let mut out = vec![9u8];
    push_u32(&mut out, 0x1234_5678);
    assert_eq!(out, vec![9, 0x78, 0x56, 0x34, 0x12]);
    assert_eq!(read_u32(&out, 1), 0x1234_5678);
}

#[test]
fn an_empty_storage_is_a_header_and_the_shape() {
    let (storage, file) = VectorStorage::create(384, 4);
    assert_eq!(VectorStorage::compute_bpv(384, 4), 248);
    assert_eq!(storage.bytes_per_vector(), 248);
    assert_eq!(storage.data_offset(), 21);
    assert!(storage.is_empty());
    assert_eq!((storage.dim(), storage.bits()), (384, 4));
    assert!(storage.is_readable(&file));
    assert_eq!(file.len(), 21);
    assert_eq!(&file[8..12], &[0, 0, 0, 0]);
    assert_eq!(&file[12..16], &[248, 0, 0, 0]);
    assert_eq!(&file[16..], &[128, 1, 0, 0, 4]);
    assert_eq!(VectorStorage::open(&file).unwrap().len(), 0);
}

#[test]
fn files_that_are_no_storage_are_refused() {
    let (_, file) = VectorStorage::create(16, 4);
    for short in [0, 15, 16, 20] {
        match VectorStorage::open(&file[..short]) {
            Err(e) => assert_eq!(e.message(), "IO error: failed to fill whole buffer"),
            Ok(_) => panic!("a torn file was opened"),
        }
    }
    let mut wrong = file.clone();
    wrong[0] ^= 1;
    match VectorStorage::open(&wrong) {
        Err(e) => assert_eq!(e.message(), "storage error: invalid magic for TurboQuant Lloyd-Max file"),
        Ok(_) => panic!("another file was opened"),
    }
}

#[test]
fn a_record_of_another_size_is_refused() {
    let (mut storage, _) = VectorStorage::create(16, 4);
    let lv = LloydMaxVector {
        scalar: ScalarQuantVector { data: vec![0; 3], dim: 6, bits: 4 },
        residual_signs: BitVector(vec![0]),
        residual_norm: scalar(0.5),
        original_norm: scalar(1.0),
    };
    let refused = storage.append(&lv);
    assert!(matches!(refused, Err(TurboError::DimensionMismatch { expected: 18, got: 12 })));
    assert_eq!(storage.len(), 0);
}

#[test]
fn a_record_is_the_norms_the_indices_and_the_signs() {
    let (mut storage, mut file) = VectorStorage::create(8, 4);
    let lv = LloydMaxVector {
        scalar: ScalarQuantVector { data: vec![0xA1, 0xB2, 0xC3, 0xD4], dim: 8, bits: 4 },
        residual_signs: BitVector(vec![0x5A]),
        residual_norm: scalar(0.5),
        original_norm: scalar(2.0),
    };
    let record = storage.serialize(&lv);
    assert_eq!(record, vec![0, 0, 0, 0x40, 0, 0, 0, 0x3F, 0xA1, 0xB2, 0xC3, 0xD4, 0x5A]);
    let back = storage.deserialize(&record);
    assert_eq!(back.scalar.data, lv.scalar.data);
    assert_eq!((back.scalar.dim, back.scalar.bits), (8, 4));
    assert_eq!(back.residual_signs.0, vec![0x5A]);
    assert_eq!((float(back.residual_norm), float(back.original_norm)), (0.5, 2.0));
    // What was appended stays where it is, and what comes after is found behind it.
    storage.append(&lv).unwrap().apply(&mut file);
    let mut other = lv.clone();
    other.residual_signs.0[0] = 0xFF;
    storage.append(&other).unwrap().apply(&mut file);
    assert_eq!(storage.get(&file, 0).residual_signs.0, vec![0x5A]);
    assert_eq!(storage.get(&file, 1).residual_signs.0, vec![0xFF]);
    assert!(storage.is_readable(&file));
    assert!(!storage.is_readable(&file[..file.len() - 1]));
    assert!(storage.has_records(&file[..file.len() - 1], 1));
    assert!(!storage.has_records(&file, 3));
    let reopened = VectorStorage::open(&file).unwrap();
    assert_eq!(reopened.len(), 2);
    assert_eq!(reopened.get_all(&file).len(), 2);
}

#[test]
fn test_create_insert_search() {
    let dim = 32;

    let mut index = Held::create(dim, 42, 99);
    index.insert(1, &unit_vec(dim, 0)).unwrap();
    index.insert(2, &unit_vec(dim, 1)).unwrap();
    index.insert(3, &unit_vec(dim, 2)).unwrap();

    assert_eq!(index.index.len(), 3);

    let results = index.search(&unit_vec(dim, 0), 2);
    assert!(!results.is_empty());
    assert_eq!(results[0].id, 1, "expected id=1 got id={}", results[0].id);
}

#[test]
fn test_delete_and_compact() {
    let dim = 16;

    let mut index = Held::create(dim, 10, 20);
    index.insert(1, &unit_vec(dim, 0)).unwrap();
    index.insert(2, &unit_vec(dim, 1)).unwrap();
    index.insert(3, &unit_vec(dim, 2)).unwrap();

    assert_eq!(index.index.len(), 3);

    index.delete(2).unwrap();
    assert_eq!(index.index.len(), 2);

    let results = index.search(&unit_vec(dim, 1), 3);
    for r in &results {
        assert_ne!(r.id, 2, "deleted vector should not appear in results");
    }

    index.compact().unwrap();
    assert_eq!(index.index.len(), 2);

    let reopened = Held::open(copy_of(&index.files)).unwrap();
    assert_eq!(reopened.index.len(), 2);
}

#[test]
fn test_open_roundtrip() {
    let dim = 16;

    let files = {
        let mut index = Held::create(dim, 1, 2);
        index.insert(10, &unit_vec(dim, 0)).unwrap();
        index.insert(20, &unit_vec(dim, 3)).unwrap();
        index.files
    };

    let index = Held::open(files).unwrap();
    assert_eq!(index.index.len(), 2);

    let results = index.search(&unit_vec(dim, 0), 1);
    assert_eq!(results.len(), 1);
    assert_eq!(results[0].id, 10);
}

#[test]
fn test_create_with_bits() {
    let dim = 32;

    let mut index = Held::create_with_bits(dim, 42, 99, 2);
    index.insert(1, &unit_vec(dim, 0)).unwrap();

    let results = index.search(&unit_vec(dim, 0), 1);
    assert_eq!(results[0].id, 1);
}

#[test]
fn test_delete_not_found() {
    let mut index = Held::create(16, 1, 2);
    let result = index.delete(999);
    assert!(result.is_err());
}

#[test]
fn test_dimension_mismatch() {
    let mut index = Held::create(16, 1, 2);
    let result = index.insert(1, &[1.0, 2.0]);
    assert!(result.is_err());
}

#[test]
fn refusals_of_an_index_say_why() {
    let mut index = Held::create(16, 1, 2);
    let unknown = index.delete(999);
    assert_eq!(TurboError::NotFound(999).message(), "index not found: 999");
    assert!(matches!(unknown, Err(TurboError::NotFound(999))));
    let short = index.insert(1, &[1.0, 2.0]);
    assert!(matches!(short, Err(TurboError::DimensionMismatch { expected: 16, got: 2 })));
    assert_eq!(
        TurboError::DimensionMismatch { expected: 16, got: 2 }.message(),
        "dimension mismatch: expected 16, got 2"
    );
    assert!(index.index.is_empty());
    assert_eq!(index.files.storage.len(), 21);
    assert!(index.search(&[1.0, 2.0], 5).is_empty());
    assert!(index.search(&unit_vec(16, 0), 5).is_empty());
    let garbled = TurboIndex::open(&[1, 2, 3], &index.files.storage, quantizer);
    assert!(garbled.is_err());
    let torn = TurboIndex::open(&index.files.meta, &index.files.storage[..7], quantizer);
    assert!(matches!(torn, Err(TurboError::Io(_))));
}

#[test]
fn a_deletion_outlives_the_process_and_compaction_drops_the_record() {
    let dim = 16;
    let mut index = Held::create(dim, 10, 20);
    for i in 0..4u64 {
        index.insert(i + 1, &unit_vec(dim, i as usize)).unwrap();
    }
    index.delete(3).unwrap();
    let before = index.files.storage.len();
    let mut reopened = Held::open(copy_of(&index.files)).unwrap();
    assert_eq!(reopened.index.len(), 3);
    assert!(reopened.search(&unit_vec(dim, 2), 10).iter().all(|r| r.id != 3));
    assert_eq!((reopened.index.identifier_count(), reopened.index.record_count()), (4, 4));
    let scores: Vec<(u64, u32)> =
        reopened.search(&unit_vec(dim, 1), 10).iter().map(|r| (r.id, r.score.to_bits())).collect();
    reopened.compact().unwrap();
    assert!(reopened.files.storage.len() < before);
    assert!(reopened.index.is_consistent(&reopened.files.storage));
    let after: Vec<(u64, u32)> =
        reopened.search(&unit_vec(dim, 1), 10).iter().map(|r| (r.id, r.score.to_bits())).collect();
    assert_eq!(scores, after);
    assert_eq!((reopened.index.identifier_count(), reopened.index.record_count()), (3, 3));
    // Nothing is deleted any more, so there is nothing left to do.
    assert!(reopened.index.compact(&reopened.files.storage).unwrap().is_none());
}

#[test]
fn a_delete_takes_its_vector_out_of_the_results_and_nothing_else() {
    let dim = 16;
    let mut index = Held::create(dim, 3, 4);
    for i in 0..6u64 {
        index.insert(10 + i, &unit_vec(dim, i as usize)).unwrap();
    }
    let full = |held: &Held| -> Vec<(u64, u32)> {
        held.search(&unit_vec(dim, 2), 100).iter().map(|r| (r.id, r.score.to_bits())).collect()
    };
    let before = full(&index);
    assert_eq!(before.len(), 6);
    index.delete(12).unwrap();
    let expected: Vec<(u64, u32)> = before.iter().copied().filter(|r| r.0 != 12).collect();
    assert_eq!(full(&index), expected);
    // Deleting it again changes nothing.
    index.delete(12).unwrap();
    assert_eq!(full(&index), expected);
    assert_eq!((index.index.len(), index.index.deleted_count()), (5, 1));
    // A new identifier is found, and the others keep their scores.
    index.insert(99, &unit_vec(dim, 2)).unwrap();
    assert_eq!(index.index.len(), 6);
    let more = full(&index);
    assert!(more.iter().any(|r| r.0 == 99));
    assert_eq!(more.iter().copied().filter(|r| r.0 != 99).collect::<Vec<_>>(), expected);
    // Compaction and reopening change no search, and what was deleted is gone.
    index.compact().unwrap();
    assert_eq!(full(&index), more);
    assert_eq!(index.index.record_count(), 6);
    assert!(index.delete(12).is_err());
    let reopened = Held::open(copy_of(&index.files)).unwrap();
    assert_eq!(full(&reopened), more);
}

#[test]
fn deleted_records_at_the_end_need_not_be_there() {
    let dim = 16;
    let mut index = Held::create(dim, 3, 4);
    for i in 0..3u64 {
        index.insert(i, &unit_vec(dim, i as usize)).unwrap();
    }
    index.delete(2).unwrap();
    let mut torn = copy_of(&index.files);
    let len = torn.storage.len();
    torn.storage.truncate(len - 18);
    let mut held = Held::open(torn).unwrap();
    assert!(held.index.is_consistent(&held.files.storage));
    assert!(held.index.is_compactable(&held.files.storage));
    assert_eq!(held.search(&unit_vec(dim, 1), 5).len(), 2);
    held.compact().unwrap();
    assert_eq!(held.search(&unit_vec(dim, 1), 5).len(), 2);
    let mut short = copy_of(&held.files);
    short.storage.truncate(30);
    let held = Held::open(short).unwrap();
    assert!(!held.index.is_consistent(&held.files.storage));
}

#[test]
fn records_may_have_room_to_spare() {
    let dim = 16;
    let mut index = Held::create(dim, 3, 4);
    for i in 0..3u64 {
        index.insert(i, &unit_vec(dim, i as usize)).unwrap();
    }
    let scores = |held: &Held| -> Vec<(u64, u32)> {
        held.search(&unit_vec(dim, 1), 5).iter().map(|r| (r.id, r.score.to_bits())).collect()
    };
    let before = scores(&index);
    // Two bytes more behind each record.
    let mut wide = copy_of(&index.files);
    wide.storage = index.files.storage[..21].to_vec();
    wide.storage[12] = 20;
    for record in index.files.storage[21..].chunks(18) {
        wide.storage.extend_from_slice(record);
        wide.storage.extend_from_slice(&[0xAA, 0xBB]);
    }
    let mut held = Held::open(wide).unwrap();
    assert!(held.index.is_consistent(&held.files.storage));
    assert_eq!(scores(&held), before);
    held.delete(0).unwrap();
    held.compact().unwrap();
    let left: Vec<(u64, u32)> = before.into_iter().filter(|r| r.0 != 0).collect();
    assert_eq!(scores(&held), left);
    assert_eq!(held.files.storage.len(), 21 + 2 * 18);
}

#[test]
fn a_storage_of_another_width_is_read_where_there_are_centroids() {
    let dim = 16;
    let filled = |bits: u8| {
        let mut index = Held::create_with_bits(dim, 3, 4, bits);
        for i in 0..3u64 {
            index.insert(i, &unit_vec(dim, i as usize)).unwrap();
        }
        index.delete(0).unwrap();
        index.files
    };
    // Indices of two bits name some of the sixteen centroids.
    let narrow = IndexFiles { storage: filled(2).storage, meta: filled(4).meta };
    let mut held = Held::open(narrow).unwrap();
    assert!(held.index.is_consistent(&held.files.storage));
    assert!(held.index.is_compactable(&held.files.storage));
    assert_eq!(held.search(&unit_vec(dim, 1), 5).len(), 2);
    // Their records have not the size of those of a new storage.
    match held.compact() {
        Err(TurboError::DimensionMismatch { expected, got }) => assert_eq!((expected, got), (18, 14)),
        _ => panic!("records of another size were taken over"),
    }
    assert_eq!((held.index.len(), held.index.deleted_count()), (2, 1));
    assert_eq!(held.search(&unit_vec(dim, 1), 5).len(), 2);
    assert_eq!(held.index.empty_storage(), Held::create(dim, 3, 4).files.storage);
    // Four centroids are too few for indices of four bits.
    let wide = IndexFiles { storage: filled(4).storage, meta: filled(2).meta };
    let held = Held::open(wide).unwrap();
    assert!(!held.index.is_consistent(&held.files.storage));
    assert!(held.index.is_compactable(&held.files.storage));
}

#[test]
fn an_insert_leaves_the_other_records_alone() {
    let dim = 16;
    let mut index = Held::create(dim, 5, 6);
    index.insert(1, &unit_vec(dim, 0)).unwrap();
    let before = index.files.storage.clone();
    index.insert(2, &unit_vec(dim, 1)).unwrap();
    let after = &index.files.storage;
    assert_eq!(after.len(), before.len() + 18);
    assert_eq!(&after[16..before.len()], &before[16..]);
    assert_eq!(&after[8..12], &[2, 0, 0, 0]);
    // A record that the metadata does not know of is passed over.
    let mut torn = copy_of(&index.files);
    let first = Held::create(dim, 5, 6);
    torn.meta = first.files.meta;
    let opened = Held::open(torn).unwrap();
    assert!(opened.index.is_consistent(&opened.files.storage));
    assert!(opened.search(&unit_vec(dim, 0), 3).is_empty());
}

#[test]
fn an_identifier_that_is_deleted_stays_hidden_when_inserted_again() {
    let dim = 16;
    let mut index = Held::create(dim, 5, 6);
    index.insert(1, &unit_vec(dim, 0)).unwrap();
    index.delete(1).unwrap();
    index.insert(1, &unit_vec(dim, 1)).unwrap();
    assert_eq!(index.index.len(), 0);
    assert!(index.search(&unit_vec(dim, 1), 3).is_empty());
}

#[test]
fn results_come_best_first() {
    let dim = 32;
    let mut rng = ChaCha8Rng::seed_from_u64(9);
    let mut index = Held::create(dim, 3, 4);
    for i in 0..20u64 {
        index.insert(i, &random_unit_vec(dim, &mut rng)).unwrap();
    }
    let all = index.search(&random_unit_vec(dim, &mut rng), 100);
    assert_eq!(all.len(), 20);
    for w in all.windows(2) {
        assert!(float(w[0].score) >= float(w[1].score));
    }
    assert_eq!(index.index.meta_bytes(), index.files.meta);
}

#[test]
fn metadata_is_read_back_as_it_was_written() {
    let meta = IndexMeta {
        dim: 384,
        rotation_seed: 42,
        qjl_seed: 99,
        bits: 4,
        ids: vec![5, 7],
        deleted: vec![7],
        next_id: 8,
        version: 2,
    };
    let bytes = meta.to_bytes();
    // Three integers of eight bytes, a byte, two counted lists, an integer, a byte.
    assert_eq!(bytes.len(), 8 + 8 + 8 + 1 + (8 + 16) + (8 + 8) + 8 + 1);
    assert_eq!(&bytes[..8], &[128, 1, 0, 0, 0, 0, 0, 0]);
    let back = IndexMeta::from_bytes(&bytes).unwrap();
    assert_eq!((back.dim, back.rotation_seed, back.qjl_seed, back.bits), (384, 42, 99, 4));
    assert_eq!((back.ids, back.deleted, back.next_id, back.version), (vec![5, 7], vec![7], 8, 2));
    match IndexMeta::from_bytes(&bytes[..20]) {
        Err(e) => assert_eq!(e.message(), "storage error: failed to deserialize meta: io error: unexpected end of file"),
        Ok(_) => panic!("a torn file was read"),
    }
}

#[test]
fn verify_turboindex_search_recall() {
    let mut rng = ChaCha8Rng::seed_from_u64(42);

    let n_vecs = 200;
    let mut index = Held::create(DIM, 42, 99);
    let mut all_vecs: Vec<Vec<f32>> = Vec::new();

    for i in 0..n_vecs {
        let v = random_unit_vec(DIM, &mut rng);
        index.insert(i as u64, &v).unwrap();
        all_vecs.push(v);
    }

    let mut total_recall = 0.0f64;
    let n_queries = 20;

    for _ in 0..n_queries {
        let query = random_unit_vec(DIM, &mut rng);

        // True top-10 by cosine
        let mut true_sims: Vec<(u64, f32)> = all_vecs
            .iter()
            .enumerate()
            .map(|(i, v)| (i as u64, query.iter().zip(v).map(|(a, b)| a * b).sum()))
            .collect();
        true_sims.sort_by(|a, b| b.1.partial_cmp(&a.1).unwrap());
        let true_top10: Vec<u64> = true_sims[..10].iter().map(|(id, _)| *id).collect();

        let results = index.search(&query, 10);
        let search_top10: Vec<u64> = results.iter().map(|r| r.id).collect();

        let overlap = true_top10.iter().filter(|id| search_top10.contains(id)).count();
        total_recall += overlap as f64 / 10.0;
    }

    let avg_recall = total_recall / n_queries as f64;

    // Brute-force search should have decent recall
    assert!(
        avg_recall >= 0.4,
        "recall@10 should be at least 40%, got {:.0}%",
        avg_recall * 100.0
    );
}

struct Stage {
    comp: TqMseCompressor,
    rotation: Array2<f32>,
}

impl Stage {
    fn new(dim: usize, seed: u64, bits: u8) -> Stage {
        let scale = 1.0 / (dim as f32).sqrt();
        Stage {
            comp: TqMseCompressor::new(dim, bits, |c: Scalar| scalar(float(c) * scale)),
            rotation: orthogonal(dim, seed),
        }
    }

    fn compress(&self, v: &[f32]) -> TqMseVector {
        self.comp.compress(&scalars(v), |x: &[Scalar]| {
            let norm = norm_of(&floats(x));
            let unit: Vec<f32> = floats(x).iter().map(|c| c / norm).collect();
            (times(&self.rotation, &scalars(&unit)), scalar(norm))
        })
    }

    fn similarity_raw(&self, query: &[f32], tv: &TqMseVector) -> Scalar {
        self.comp.similarity_raw(
            &scalars(query),
            tv,
            |x: &[Scalar]| times(&self.rotation, x),
            |s: Scalar, x: Scalar, y: Scalar| scalar(float(s) + float(x) * float(y)),
            |dot: Scalar, n: Scalar| scalar(float(dot) * float(n)),
        )
    }
}

#[test]
fn test_two_stage_search_basic() {
    let dim = 32;
    let projection = gaussian(dim, 42);
    let qjl = QjlCompressor::new(dim);
    let signs = |v: &[f32]| qjl.compress(&scalars(v), |x: &[Scalar]| times(&projection, x));
    let tqmse = Stage::new(dim, 99, 3);

    let mut vectors: Vec<Vec<f32>> = Vec::new();
    let mut ids: Vec<u64> = Vec::new();

    // v0 = [1, 0, 0, ...]
    let mut v0 = vec![0.0f32; dim];
    v0[0] = 1.0;
    vectors.push(v0);
    ids.push(100);

    // v1 close to v0
    let mut v1 = vec![0.0f32; dim];
    let n = (0.95f32 * 0.95 + 0.05 * 0.05).sqrt();
    v1[0] = 0.95 / n;
    v1[1] = 0.05 / n;
    vectors.push(v1);
    ids.push(101);

    // v2 orthogonal to v0
    let mut v2 = vec![0.0f32; dim];
    v2[1] = 1.0;
    vectors.push(v2);
    ids.push(102);

    let index_qjl: Vec<BitVector> = vectors.iter().map(|v| signs(v)).collect();
    let stored: Vec<TqMseVector> = vectors.iter().map(|v| tqmse.compress(v)).collect();

    let query_qjl = signs(&vectors[0]);
    let tqmse_indices: Vec<usize> = (0..3).collect();

    let results = two_stage_search(
        &query_qjl,
        &index_qjl,
        &tqmse_indices,
        &ids,
        2,
        3,
        &|at: usize| tqmse.similarity_raw(&vectors[0], &stored[at]),
    );

    assert_eq!(results.len(), 2);
    assert!(
        results[0].id == 100 || results[0].id == 101,
        "top result id = {}",
        results[0].id
    );
}

#[test]
fn test_empty_index() {
    let dim = 16;
    let projection = gaussian(dim, 1);
    let qjl = QjlCompressor::new(dim);

    let mut v = vec![0.0f32; dim];
    v[0] = 1.0;

    let results = two_stage_search(
        &qjl.compress(&scalars(&v), |x: &[Scalar]| times(&projection, x)),
        &[],
        &[],
        &[],
        5,
        10,
        &|_at: usize| scalar(0.0),
    );
    assert!(results.is_empty());
}

#[test]
fn the_first_stage_filters_and_the_second_orders() {
    let query = BitVector(vec![0x00]);
    let index = vec![BitVector(vec![0x01]), BitVector(vec![0xFF]), BitVector(vec![0x03])];
    let scores = [scalar(0.25), scalar(0.99), scalar(0.5)];
    let results = two_stage_search(&query, &index, &[2, 1, 0], &[10, 20, 30], 5, 2, &|at: usize| scores[at]);
    let found: Vec<(u64, f32, u32)> = results.iter().map(|r| (r.id, float(r.score), r.distance)).collect();
    assert_eq!(found, vec![(10, 0.5, 1), (30, 0.25, 2)]);
    // Only what is picked needs a place and an identifier.
    let one = two_stage_search(&query, &index, &[2], &[10], 5, 1, &|at: usize| scores[at]);
    assert_eq!((one.len(), one[0].id), (1, 10));
}
