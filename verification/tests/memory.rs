//! Ranking, the token budget, and the memories of a session and of a project.
#![allow(dead_code)]

use std::cell::RefCell;
use std::rc::Rc;

use ndarray::{Array1, Array2};
use rand::SeedableRng;
use rand_chacha::ChaCha8Rng;
use rand_distr::{Distribution, Normal};
use turboquant::budget::select_within_budget;
use turboquant::compression::centroids::compute_lloyd_max_centroids;
use turboquant::compression::lloyd_max::LloydMaxQuantizer;
use turboquant::document::{Document, DocumentType, RecallResult, SyncStats};
use turboquant::embedder::MockEmbedder;
use turboquant::error::{AgentMemoryError, TurboError};
use turboquant::index::{IndexFiles, SearchResult, TurboIndex};
use turboquant::meta::IndexMeta;
use turboquant::persistent::{FileProbe, PersistentMemory};
use turboquant::ranker::{document_reference, rank, RankedResult, RankingConfig};
use turboquant::scalar::Scalar;
use turboquant::session::{SessionMemory, QJL_SEED, ROTATION_SEED};
use turboquant::string_map::StringMap;

fn scalar(x: f32) -> Scalar {
    Scalar::from_bits(x.to_bits())
}

fn float(s: Scalar) -> f32 {
    f32::from_bits(s.to_bits())
}

fn scalars(v: &[f32]) -> Vec<Scalar> {
    v.iter().map(|&x| scalar(x)).collect()
}

fn floats(v: &[Scalar]) -> Vec<f32> {
    v.iter().map(|&s| float(s)).collect()
}

fn inner(a: &[Scalar], b: &[Scalar]) -> Scalar {
    scalar(a.iter().zip(b).map(|(x, y)| float(*x) * float(*y)).sum())
}

fn norm_of(v: &[f32]) -> f32 {
    v.iter().map(|x| x * x).sum::<f32>().sqrt()
}

fn random_unit_vec(dim: usize, rng: &mut ChaCha8Rng) -> Vec<f32> {
    let normal = Normal::new(0.0, 1.0f64).unwrap();
    let raw: Vec<f32> = (0..dim).map(|_| normal.sample(rng) as f32).collect();
    let norm = norm_of(&raw);
    raw.iter().map(|v| v / norm).collect()
}

/// A random orthogonal matrix.
fn orthogonal(dim: usize, seed: u64) -> Array2<f32> {
    let mut rng = ChaCha8Rng::seed_from_u64(seed);
    let normal = Normal::new(0.0, 1.0f64).unwrap();
    let data: Vec<f32> = (0..dim * dim).map(|_| normal.sample(&mut rng) as f32).collect();
    let mut q = Array2::from_shape_vec((dim, dim), data).unwrap();
    for i in 0..dim {
        let norm: f32 = q.column(i).dot(&q.column(i)).sqrt();
        if norm > 1e-10 {
            let inverse = 1.0 / norm;
            for r in 0..dim {
                q[[r, i]] *= inverse;
            }
        }
        for j in (i + 1)..dim {
            let proj: f32 = q.column(i).dot(&q.column(j));
            for r in 0..dim {
                q[[r, j]] -= proj * q[[r, i]];
            }
        }
    }
    q
}

/// A matrix of independent normal entries.
fn gaussian(dim: usize, seed: u64) -> Array2<f32> {
    let mut rng = ChaCha8Rng::seed_from_u64(seed);
    let normal = Normal::new(0.0, (1.0 / dim as f64).sqrt()).unwrap();
    let data: Vec<f32> = (0..dim * dim).map(|_| normal.sample(&mut rng) as f32).collect();
    Array2::from_shape_vec((dim, dim), data).unwrap()
}

fn times(m: &Array2<f32>, v: &[Scalar]) -> Vec<Scalar> {
    let x = Array1::from_vec(floats(v));
    scalars(&m.dot(&x).to_vec())
}

fn times_transposed(m: &Array2<f32>, v: &[Scalar]) -> Vec<f32> {
    let x = Array1::from_vec(floats(v));
    m.t().dot(&x).to_vec()
}

/// The arithmetic that the compressors are given.
#[derive(Clone)]
struct Arithmetic {
    dim: usize,
    rotation: Rc<Array2<f32>>,
    projection: Rc<Array2<f32>>,
}

impl Arithmetic {
    fn new(dim: usize, rotation_seed: u64, qjl_seed: u64) -> Arithmetic {
        Arithmetic {
            dim,
            rotation: Rc::new(orthogonal(dim, rotation_seed)),
            projection: Rc::new(gaussian(dim, qjl_seed)),
        }
    }

    fn rotate_unit(&self, v: &[Scalar]) -> (Vec<Scalar>, Scalar) {
        let raw = floats(v);
        let norm = norm_of(&raw);
        let unit: Vec<f32> = if norm > 1e-10 {
            raw.iter().map(|x| x / norm).collect()
        } else {
            vec![0.0; self.dim]
        };
        (times(&self.rotation, &scalars(&unit)), scalar(norm))
    }

    fn rotate(&self, v: &[Scalar]) -> Vec<Scalar> {
        times(&self.rotation, v)
    }

    fn project(&self, v: &[Scalar]) -> Vec<Scalar> {
        times(&self.projection, v)
    }

    fn residual(&self, a: &[Scalar], b: &[Scalar]) -> (Vec<Scalar>, Scalar) {
        let rest: Vec<f32> = a.iter().zip(b).map(|(x, y)| float(*x) - float(*y)).collect();
        let norm = norm_of(&rest);
        (scalars(&rest), scalar(norm))
    }

    fn restore(&self, y: &[Scalar], norm: Scalar) -> Vec<Scalar> {
        let x = times_transposed(&self.rotation, y);
        x.iter().map(|v| scalar(v * float(norm))).collect()
    }

    fn signed(&self, sum: Scalar, positive: bool, p: Scalar) -> Scalar {
        let sign = if positive { 1.0f32 } else { -1.0f32 };
        scalar(float(sum) + sign * float(p))
    }

    fn weighted(&self, norm: Scalar, sum: Scalar) -> Scalar {
        let scale = float(norm) * (std::f32::consts::PI / (2.0 * self.dim as f32)).sqrt();
        scalar(scale * float(sum))
    }

    fn whole(&self, norm: Scalar, similarity: Scalar, correction: Scalar) -> Scalar {
        scalar(float(norm) * (float(similarity) + float(correction)))
    }
}

fn gaussian_pdf(x: f32, sigma: f32) -> f32 {
    let coeff = 1.0 / (sigma * (2.0 * std::f32::consts::PI).sqrt());
    let exponent = -(x * x) / (2.0 * sigma * sigma);
    coeff * exponent.exp()
}

fn gaussian_conditional_mean(a: f32, b: f32, sigma: f32, n_points: usize) -> (f64, f64) {
    let h = (b - a) as f64 / n_points as f64;
    let mut num = 0.0f64;
    let mut den = 0.0f64;
    for i in 0..=n_points {
        let x = a as f64 + i as f64 * h;
        let p = gaussian_pdf(x as f32, sigma) as f64;
        let weight = if i == 0 || i == n_points { 0.5 } else { 1.0 };
        num += weight * x * p;
        den += weight * p;
    }
    (num * h, den * h)
}

fn spaced(range: f32, i: usize, n: usize) -> Scalar {
    scalar(-range + (2.0 * range) * (i as f32 + 0.5) / n as f32)
}

fn halfway(a: Scalar, b: Scalar) -> Scalar {
    scalar(0.5 * (float(a) + float(b)))
}

fn mean_between(sigma: f32, lo: Scalar, hi: Scalar) -> Option<Scalar> {
    let (num, den) = gaussian_conditional_mean(float(lo), float(hi), sigma, 200);
    if den.abs() > 1e-15 {
        Some(scalar((num / den) as f32))
    } else {
        None
    }
}

fn widened(most: Scalar, new: Scalar, old: Scalar) -> Scalar {
    scalar(float(most).max((float(new) - float(old)).abs()))
}

fn centroids_for(sigma: f32, bits: u8) -> Vec<f32> {
    let range = 5.0 * sigma;
    floats(&compute_lloyd_max_centroids(
        bits,
        scalar(-range),
        scalar(range),
        &|i: usize, n: usize| spaced(range, i, n),
        &halfway,
        &|lo: Scalar, hi: Scalar| mean_between(sigma, lo, hi),
        &widened,
    ))
}

fn quantizer(dim: usize, bits: u8) -> LloydMaxQuantizer {
    let sigma = 1.0 / (dim as f32).sqrt();
    let range = 5.0 * sigma;
    LloydMaxQuantizer::new(
        dim,
        bits,
        scalar(-range),
        scalar(range),
        |i: usize, n: usize| spaced(range, i, n),
        halfway,
        |lo: Scalar, hi: Scalar| mean_between(sigma, lo, hi),
        widened,
    )
}

/// An index, its two files and its arithmetic.
struct Held {
    index: TurboIndex,
    files: IndexFiles,
    math: Arithmetic,
}

impl Held {
    fn create(dim: usize, rotation_seed: u64, qjl_seed: u64) -> Held {
        let (index, files) = TurboIndex::create(dim, rotation_seed, qjl_seed, quantizer);
        Held { index, files, math: Arithmetic::new(dim, rotation_seed, qjl_seed) }
    }

    fn create_with_bits(dim: usize, rotation_seed: u64, qjl_seed: u64, bits: u8) -> Held {
        let (index, files) = TurboIndex::create_with_bits(dim, rotation_seed, qjl_seed, bits, quantizer);
        Held { index, files, math: Arithmetic::new(dim, rotation_seed, qjl_seed) }
    }

    fn open(files: IndexFiles) -> Result<Held, TurboError> {
        let meta = IndexMeta::from_bytes(&files.meta)?;
        let index = TurboIndex::open(&files.meta, &files.storage, quantizer)?;
        let math = Arithmetic::new(meta.dim, meta.rotation_seed, meta.qjl_seed);
        Ok(Held { index, files, math })
    }

    fn insert(&mut self, id: u64, v: &[f32]) -> Result<(), TurboError> {
        let math = &self.math;
        let inserted = self.index.insert(
            id,
            &scalars(v),
            |x: &[Scalar]| math.rotate_unit(x),
            |a: &[Scalar], b: &[Scalar]| math.residual(a, b),
            |x: &[Scalar]| math.project(x),
        )?;
        inserted.append.apply(&mut self.files.storage);
        self.files.meta = inserted.meta;
        Ok(())
    }

    fn delete(&mut self, id: u64) -> Result<(), TurboError> {
        self.files.meta = self.index.delete(id)?;
        Ok(())
    }

    fn search(&self, query: &[f32], top_k: usize) -> Vec<SearchResult> {
        self.index.search(
            &self.files.storage,
            &scalars(query),
            top_k,
            |x: &[Scalar]| self.math.rotate(x),
            |x: &[Scalar]| self.math.project(x),
            &inner,
            &|s: Scalar, b: bool, p: Scalar| self.math.signed(s, b, p),
            &|n: Scalar, s: Scalar| self.math.weighted(n, s),
            &|n: Scalar, s: Scalar, c: Scalar| self.math.whole(n, s, c),
        )
    }

    fn compact(&mut self) -> Result<(), TurboError> {
        if let Some(files) = self.index.compact(&self.files.storage)? {
            self.files = files;
        }
        Ok(())
    }
}


fn recency(age: u64) -> Scalar {
    scalar(1.0 / (1.0 + (age as f32 + 1.0).ln()))
}

fn combine(relevance_weight: Scalar, relevance: Scalar, recency_weight: Scalar, recency: Scalar) -> Scalar {
    scalar(float(relevance_weight) * float(relevance) + float(recency_weight) * float(recency))
}

fn drawn(state: u64) -> Scalar {
    scalar((state as f32 / u64::MAX as f32) * 2.0 - 1.0)
}

fn normalized(v: &Vec<Scalar>) -> Vec<Scalar> {
    let norm = norm_of(&floats(v));
    if norm > 0.0 {
        v.iter().map(|x| scalar(float(*x) / norm)).collect()
    } else {
        v.clone()
    }
}

fn embed(mock: &MockEmbedder, text: &str) -> Vec<f32> {
    floats(&mock.embed(text, &drawn, &normalized))
}

fn document(id: u64, timestamp: u64, tokens: usize) -> Document {
    Document {
        id,
        doc_type: DocumentType::ConversationTurn,
        source_path: None,
        content: format!("doc {id}"),
        content_preview: format!("doc {id}"),
        token_count: tokens,
        timestamp,
        metadata: StringMap::new(),
    }
}

fn turn_document(id: u64, turn: u64) -> Document {
    let mut metadata = StringMap::new();
    metadata.insert("turn_number".to_string(), turn.to_string());
    Document {
        id,
        doc_type: DocumentType::ConversationTurn,
        source_path: None,
        content: format!("turn {turn}"),
        content_preview: format!("turn {turn}"),
        token_count: 10,
        timestamp: turn,
        metadata,
    }
}

fn ranked_at(id: u64, score: f32) -> RankedResult {
    RankedResult {
        id,
        relevance_score: scalar(score),
        recency_score: scalar(0.5),
        combined_score: scalar(score),
    }
}

fn found(id: u64, score: f32) -> SearchResult {
    SearchResult { id, score: scalar(score) }
}

fn weights(relevance_weight: f32, recency_weight: f32, always_keep_recent: usize) -> RankingConfig {
    RankingConfig {
        relevance_weight: scalar(relevance_weight),
        recency_weight: scalar(recency_weight),
        always_keep_recent,
    }
}

#[test]
fn test_budget_respected() {
    let docs = vec![
        document(1, 100, 50),
        document(2, 200, 50),
        document(3, 300, 50),
        document(4, 400, 50),
    ];
    let ranked = vec![
        ranked_at(4, 0.9),
        ranked_at(3, 0.8),
        ranked_at(2, 0.7),
        ranked_at(1, 0.6),
    ];

    // Budget of 120 tokens: can fit at most 2 docs (each 50 tokens)
    // With nothing kept for being recent, the top 2 by score: ids 4, 3
    let selected = select_within_budget(&ranked, &docs, 120, 0);
    assert_eq!(selected.len(), 2);
    let total: usize = selected
        .iter()
        .filter_map(|id| docs.iter().find(|d| d.id == *id))
        .map(|d| d.token_count)
        .sum();
    assert!(total <= 120);
    assert_eq!(selected, vec![3, 4]);
}

#[test]
fn test_recent_always_kept() {
    let docs = vec![
        document(1, 100, 30), // oldest, highest score
        document(2, 200, 30),
        document(3, 300, 30), // 2nd most recent
        document(4, 400, 30), // most recent
    ];
    let ranked = vec![
        ranked_at(1, 0.99),
        ranked_at(2, 0.50),
        ranked_at(3, 0.30),
        ranked_at(4, 0.10),
    ];

    // Budget of 90 tokens = 3 docs. Docs 4 and 3 are kept for being recent.
    // Remaining budget = 30 tokens, best remaining by score is doc 1.
    let selected = select_within_budget(&ranked, &docs, 90, 2);
    assert_eq!(selected.len(), 3);
    assert!(selected.contains(&3));
    assert!(selected.contains(&4));
    assert!(selected.contains(&1));
}

#[test]
fn test_chronological_ordering() {
    let docs = vec![document(1, 100, 20), document(2, 300, 20), document(3, 200, 20)];
    let ranked = vec![ranked_at(2, 0.9), ranked_at(3, 0.8), ranked_at(1, 0.7)];

    let selected = select_within_budget(&ranked, &docs, 1000, 0);
    // Should be in timestamp order: 1 (100), 3 (200), 2 (300)
    assert_eq!(selected, vec![1, 3, 2]);
}

#[test]
fn test_empty() {
    let selected = select_within_budget(&[], &vec![], 1000, 0);
    assert!(selected.is_empty());
}

#[test]
fn the_better_score_goes_first() {
    let docs = vec![document(1, 100, 40), document(2, 200, 40)];
    let ranked = vec![ranked_at(1, 0.1), ranked_at(2, 0.9)];
    assert_eq!(select_within_budget(&ranked, &docs, 50, 0), vec![2]);
    // Equal scores keep their order.
    let even = vec![ranked_at(2, 0.5), ranked_at(1, 0.5)];
    assert_eq!(select_within_budget(&even, &docs, 50, 0), vec![2]);
    assert_eq!(select_within_budget(&even, &docs, 80, 0), vec![1, 2]);
}

#[test]
fn of_one_instant_the_greater_identifier_is_the_more_recent() {
    let docs = vec![document(1, 100, 40), document(2, 100, 40), document(3, 99, 40)];
    let ranked = vec![ranked_at(1, 0.9), ranked_at(2, 0.1), ranked_at(3, 0.95)];
    assert_eq!(select_within_budget(&ranked, &docs, 50, 1), vec![2]);
    let far = vec![document(1, u64::MAX, 40), document(u64::MAX, u64::MAX, 40), document(7, 0, 40)];
    let ranked = vec![ranked_at(1, 0.9), ranked_at(u64::MAX, 0.1), ranked_at(7, 0.95)];
    assert_eq!(select_within_budget(&ranked, &far, 50, 1), vec![u64::MAX]);
    assert_eq!(select_within_budget(&ranked, &far, 80, 1), vec![7, u64::MAX]);
}

#[test]
fn what_does_not_fit_is_passed_over() {
    let docs = vec![document(1, 100, 10), document(2, 200, 100), document(3, 300, 20)];
    let ranked = vec![ranked_at(2, 0.9), ranked_at(3, 0.8), ranked_at(1, 0.7)];
    assert_eq!(select_within_budget(&ranked, &docs, 30, 0), vec![1, 3]);
    // A recent document that is over the budget is not taken either.
    assert_eq!(select_within_budget(&ranked, &docs, 19, 1), vec![1]);
    assert!(select_within_budget(&ranked, &docs, 9, 3).is_empty());
    // Results that have no document are not selected.
    assert!(select_within_budget(&[ranked_at(7, 1.0)], &docs, 1000, 0).is_empty());
}

#[test]
fn test_rank_ordering() {
    // Two search results: one highly relevant but old, one less relevant but recent.
    let docs = vec![turn_document(1, 1), turn_document(2, 10)];
    let results = vec![found(1, 0.95), found(2, 0.5)];

    let config = RankingConfig::default();
    let ranked = rank(&results, &docs, 10, &config, &recency, &combine);

    assert_eq!(ranked.len(), 2);
    // Doc 1: 0.95*0.6 + 0.4/(1+ln(10)), about 0.69
    // Doc 2: 0.5*0.6 + 0.4/(1+ln(1)), about 0.70
    assert!(float(ranked[0].combined_score) >= float(ranked[1].combined_score));
    assert_eq!(ranked[0].id, 2);
}

#[test]
fn test_rank_recency_formula() {
    let docs = vec![turn_document(1, 0)];
    let results = vec![found(1, 1.0)];

    let config = weights(0.0, 1.0, 0);

    // Turn 0 at turn 0: 1/(1+ln(1)) = 1.0
    let ranked = rank(&results, &docs, 0, &config, &recency, &combine);
    assert!((float(ranked[0].recency_score) - 1.0).abs() < 1e-5);

    // Turn 0 at turn 100: 1/(1+ln(101)), about 0.178
    let ranked2 = rank(&results, &docs, 100, &config, &recency, &combine);
    assert!(float(ranked2[0].recency_score) < 0.25);
    assert!(float(ranked2[0].recency_score) > 0.1);
}

#[test]
fn test_rank_relevance_only() {
    let docs = vec![turn_document(1, 5), turn_document(2, 5), turn_document(3, 5)];
    let results = vec![found(1, 0.3), found(2, 0.9), found(3, 0.6)];

    let config = weights(1.0, 0.0, 0);

    let ranked = rank(&results, &docs, 5, &config, &recency, &combine);
    assert_eq!(ranked[0].id, 2);
    assert_eq!(ranked[1].id, 3);
    assert_eq!(ranked[2].id, 1);
}

#[test]
fn ranking_clamps_and_drops_and_keeps_ties_in_order() {
    let docs = vec![turn_document(1, 9), turn_document(2, 3), turn_document(3, 3)];
    let results = vec![found(2, 7.5), found(9, 0.9), found(3, 1.0), found(1, -0.5)];
    let config = weights(1.0, 0.0, 0);
    let ranked = rank(&results, &docs, 5, &config, &recency, &combine);
    let seen: Vec<(u64, f32)> = ranked.iter().map(|r| (r.id, float(r.relevance_score))).collect();
    assert_eq!(seen, vec![(2, 1.0), (3, 1.0), (1, 0.0)]);
    // A turn in the future has no age.
    assert_eq!(float(ranked[2].recency_score), 1.0);
    let default = RankingConfig::default();
    assert_eq!((float(default.relevance_weight), float(default.recency_weight)), (0.6, 0.4));
    assert_eq!(default.always_keep_recent, 4);
}

#[test]
fn a_document_is_dated_by_its_turn_or_its_timestamp() {
    let mut doc = document(1, 500, 1);
    assert_eq!(document_reference(&doc), 500);
    doc.metadata.insert("turn_number".to_string(), "7".to_string());
    assert_eq!(document_reference(&doc), 7);
    doc.metadata.insert("turn_number".to_string(), "seven".to_string());
    assert_eq!(document_reference(&doc), 500);
}

#[test]
fn test_mock_embedder_deterministic() {
    let emb = MockEmbedder::new(64);
    let v1 = embed(&emb, "hello world");
    let v2 = embed(&emb, "hello world");
    assert_eq!(v1, v2);
}

#[test]
fn test_mock_embedder_different_texts_differ() {
    let emb = MockEmbedder::new(64);
    let v1 = embed(&emb, "hello");
    let v2 = embed(&emb, "world");
    assert_ne!(v1, v2);
}

#[test]
fn test_mock_embedder_unit_vector() {
    let emb = MockEmbedder::new(128);
    let v = embed(&emb, "test text");
    let norm: f32 = v.iter().map(|x| x * x).sum::<f32>().sqrt();
    assert!((norm - 1.0).abs() < 1e-5, "norm = {}", norm);
}

#[test]
fn test_mock_embedder_dim() {
    let emb = MockEmbedder::new(384);
    assert_eq!(emb.dim(), 384);
    assert_eq!(embed(&emb, "foo").len(), 384);
}

#[test]
fn test_mock_embedder_batch() {
    let emb = MockEmbedder::new(32);
    let batch = emb.embed_batch(&["a", "b", "c"], &drawn, &normalized);
    assert_eq!(batch.len(), 3);
    assert_eq!(floats(&batch[0]), embed(&emb, "a"));
}

#[test]
fn the_states_of_the_empty_text() {
    // The four words of the SHA-256 digest of no bytes, e3b0c442 98fc1c14 9afbf4c8 996fb924
    // 27ae41e4 649b934c a495991b 7852b855, taken low byte first and added without carry.
    let words: [u64; 4] =
        [0x141cfc9842c4b0e3, 0x24b96f99c8f4fb9a, 0x4c939b64e441ae27, 0x55b852781b9995a4];
    let mut state = words[0] ^ words[1] ^ words[2] ^ words[3];
    let mut expected: Vec<u64> = Vec::new();
    for _ in 0..3 {
        state ^= state << 13;
        state ^= state >> 7;
        state ^= state << 17;
        expected.push(state);
    }
    assert_eq!(MockEmbedder::new(3).states(""), expected);
}

/// A session with its index.
struct Session {
    memory: SessionMemory,
    index: Held,
    embedder: MockEmbedder,
}

fn make_session() -> Session {
    let embedder = MockEmbedder::new(32);
    let index = Held::create(embedder.dim(), ROTATION_SEED, QJL_SEED);
    Session { memory: SessionMemory::new(), index, embedder }
}

impl Session {
    fn add_turn(&mut self, role: &str, content: &str, tokens: usize) -> Result<u64, AgentMemoryError> {
        let index = &mut self.index;
        let embedder = &self.embedder;
        self.memory.add_turn(role, content, tokens, |id: u64, text: &str| {
            index.insert(id, &embed(embedder, text))
        })
    }

    fn select_context(
        &self,
        message: &str,
        budget: usize,
        config: Option<RankingConfig>,
    ) -> Result<Vec<&Document>, AgentMemoryError> {
        self.memory.select_context(
            message,
            budget,
            config,
            |text: &str, limit: usize| self.index.search(&embed(&self.embedder, text), limit),
            &recency,
            &combine,
        )
    }
}

#[test]
fn test_add_turns_and_count() {
    let mut session = make_session();
    for i in 0..10 {
        session.add_turn("user", &format!("message {i}"), 20).unwrap();
    }
    assert_eq!(session.memory.turn_count(), 10);
    assert_eq!(session.memory.total_tokens(), 200);
}

#[test]
fn test_select_context_budget() {
    let mut session = make_session();
    // Add 10 turns, each 50 tokens
    for i in 0..10 {
        session.add_turn("user", &format!("topic {i} about Rust programming"), 50).unwrap();
    }

    // Budget of 200 tokens = at most 4 turns
    let context = session.select_context("Rust programming question", 200, None).unwrap();
    let total_tokens: usize = context.iter().map(|d| d.token_count).sum();
    assert!(total_tokens <= 200, "total_tokens={total_tokens}");
    assert!(!context.is_empty());
}

#[test]
fn test_recent_turns_always_included() {
    let mut session = make_session();
    // Add 10 turns
    for i in 0..10 {
        session.add_turn("user", &format!("turn {i} content"), 20).unwrap();
    }

    // The budget allows all 10 turns (200 tokens), and the last 4 turns
    // (IDs 7,8,9,10) should always be present.
    let config = weights(0.6, 0.4, 4);
    let context = session.select_context("anything", 200, Some(config)).unwrap();

    let ids: Vec<u64> = context.iter().map(|d| d.id).collect();
    for expected_id in 7..=10 {
        assert!(
            ids.contains(&expected_id),
            "expected turn {expected_id} to be in context, got {ids:?}"
        );
    }
}

#[test]
fn the_last_turns_are_kept_when_nothing_else_fits() {
    let mut session = make_session();
    for i in 0..12 {
        session.add_turn("user", &format!("turn {i} content"), 20).unwrap();
    }
    for message in ["anything", "turn 0 content", "user: turn 3 content"] {
        let context = session.select_context(message, 60, Some(weights(0.9, 0.1, 3))).unwrap();
        let ids: Vec<u64> = context.iter().map(|d| d.id).collect();
        assert_eq!(ids, vec![10, 11, 12]);
    }
}

#[test]
fn test_select_context_chronological_order() {
    let mut session = make_session();
    for i in 0..5 {
        session.add_turn("user", &format!("turn {i}"), 10).unwrap();
    }

    let context = session.select_context("turn", 1000, None).unwrap();
    let ids: Vec<u64> = context.iter().map(|d| d.id).collect();
    // IDs should be in ascending order
    for w in ids.windows(2) {
        assert!(w[0] < w[1], "expected chronological order, got {ids:?}");
    }
}

#[test]
fn test_empty_session() {
    let session = make_session();
    let context = session.select_context("hello", 1000, None).unwrap();
    assert!(context.is_empty());
}

#[test]
fn a_turn_is_kept_with_its_role_and_number() {
    let mut session = make_session();
    assert_eq!(session.add_turn("user", "hello", 3).unwrap(), 1);
    assert_eq!(session.add_turn("assistant", "hi", 2).unwrap(), 2);
    let context = session.select_context("hello", 100, None).unwrap();
    assert_eq!(context.len(), 2);
    assert_eq!(context[0].content, "user: hello");
    assert_eq!(context[0].metadata.get("role").map(|s| s.as_str()), Some("user"));
    assert_eq!(context[1].metadata.get("turn_number").map(|s| s.as_str()), Some("2"));
    assert_eq!(context[1].token_count, 2);
    assert!(context[0].timestamp > 1_600_000_000_000);
}

#[test]
fn a_turn_that_the_index_refuses_is_counted_and_not_kept() {
    let mut session = make_session();
    let refused = session.memory.add_turn("user", "hello", 3, |id: u64, _text: &str| {
        Err(TurboError::NotFound(id))
    });
    match refused {
        Err(e) => assert_eq!(e.message(), "turboquant error: index not found: 1"),
        Ok(_) => panic!("the refusal was lost"),
    }
    assert_eq!(session.memory.turn_count(), 1);
    assert_eq!(session.memory.total_tokens(), 0);
    assert_eq!(session.add_turn("user", "again", 3).unwrap(), 2);
}

/// A project's memory with its index and its files.
struct Project {
    memory: PersistentMemory,
    index: RefCell<Held>,
    embedder: MockEmbedder,
    hashes: RefCell<String>,
    saved: RefCell<Vec<Document>>,
    files: RefCell<Vec<(String, String)>>,
}

fn make_persistent() -> Project {
    let embedder = MockEmbedder::new(32);
    let index = Held::create(embedder.dim(), ROTATION_SEED, QJL_SEED);
    Project {
        memory: PersistentMemory::open(vec![], None).unwrap(),
        index: RefCell::new(index),
        embedder,
        hashes: RefCell::new(String::new()),
        saved: RefCell::new(vec![]),
        files: RefCell::new(vec![]),
    }
}

impl Project {
    fn insert(&self, id: u64, text: &str) -> Result<(), TurboError> {
        self.index.borrow_mut().insert(id, &embed(&self.embedder, text))
    }

    fn save(&self, memory: &PersistentMemory) -> Result<(), AgentMemoryError> {
        *self.hashes.borrow_mut() = memory.hashes_text()?;
        *self.saved.borrow_mut() = memory.documents().clone();
        Ok(())
    }

    fn read(&self, path: &str) -> Result<String, String> {
        let files = self.files.borrow();
        let file = files.iter().find(|(p, _)| p == path);
        file.map(|(_, content)| content.clone()).ok_or("No such file or directory".to_string())
    }

    fn write(&self, path: &str, content: &str) {
        self.remove(path);
        self.files.borrow_mut().push((path.to_string(), content.to_string()));
    }

    fn remove(&self, path: &str) {
        self.files.borrow_mut().retain(|(p, _)| p != path);
    }

    fn with<T>(&mut self, act: impl FnOnce(&mut PersistentMemory, &Project) -> T) -> T {
        let fresh = PersistentMemory::open(vec![], None).unwrap();
        let mut memory = std::mem::replace(&mut self.memory, fresh);
        let outcome = act(&mut memory, self);
        self.memory = memory;
        outcome
    }

    fn ingest(
        &mut self,
        content: &str,
        doc_type: DocumentType,
        source: Option<&str>,
    ) -> Result<u64, AgentMemoryError> {
        self.with(|memory, p| {
            memory.ingest(
                content,
                doc_type,
                source,
                &|id: u64, text: &str| p.insert(id, text),
                &|m: &PersistentMemory| p.save(m),
            )
        })
    }

    fn ingest_all(&mut self, paths: &[&str], doc_type: DocumentType) -> Result<usize, AgentMemoryError> {
        let paths: Vec<String> = paths.iter().map(|p| p.to_string()).collect();
        self.with(|memory, p| {
            memory.ingest_glob(
                &paths,
                doc_type,
                &|path: &str| p.read(path),
                &|id: u64, text: &str| p.insert(id, text),
                &|m: &PersistentMemory| p.save(m),
            )
        })
    }

    fn sync(&mut self) -> Result<SyncStats, AgentMemoryError> {
        self.with(|memory, p| {
            memory.sync(
                &|path: &str| match p.read(path) {
                    Ok(content) => FileProbe::Content(content),
                    Err(_) => FileProbe::Missing,
                },
                &|id: u64| p.index.borrow_mut().delete(id),
                &|id: u64, text: &str| p.insert(id, text),
                &|m: &PersistentMemory| p.save(m),
            )
        })
    }

    fn search(&self, text: &str, limit: usize) -> Vec<SearchResult> {
        self.index.borrow().search(&embed(&self.embedder, text), limit)
    }

    fn recall(&self, query: &str, top_k: usize) -> Result<Vec<RecallResult>, AgentMemoryError> {
        self.memory.recall(query, top_k, |q: &str, n: usize| self.search(q, n), &recency, &combine)
    }

    fn recall_typed(
        &self,
        query: &str,
        top_k: usize,
        types: &[DocumentType],
    ) -> Result<Vec<RecallResult>, AgentMemoryError> {
        self.memory.recall_typed(
            query,
            top_k,
            types,
            |q: &str, n: usize| self.search(q, n),
            &recency,
            &combine,
        )
    }

    fn reopened(self) -> Project {
        let documents = self.saved.borrow().clone();
        let memory = PersistentMemory::open(documents, Some(&self.hashes.borrow())).unwrap();
        let index = self.index.into_inner();
        let index = Held::open(index.files).unwrap();
        Project { memory, index: RefCell::new(index), ..self }
    }
}

#[test]
fn test_ingest_and_recall() {
    let mut mem = make_persistent();

    mem.ingest("Rust ownership and borrowing rules", DocumentType::Memory, None).unwrap();
    mem.ingest("Python garbage collection internals", DocumentType::Memory, None).unwrap();
    mem.ingest("Rust lifetime annotations guide", DocumentType::Memory, None).unwrap();

    let results = mem.recall("Rust memory management", 5).unwrap();
    assert!(!results.is_empty());
}

#[test]
fn test_ingest_file_and_sync_update() {
    let mut mem = make_persistent();

    // Create a file to ingest.
    let file_str = "project/test_doc.md";
    mem.write(file_str, "original content about algorithms");
    mem.ingest("original content about algorithms", DocumentType::Plan, Some(file_str)).unwrap();

    assert_eq!(mem.memory.documents().len(), 1);

    // Modify the file.
    mem.write(file_str, "updated content about data structures");

    let stats = mem.sync().unwrap();
    assert_eq!(stats.updated, 1);
    assert_eq!(stats.removed, 0);

    // After sync, the document content should reflect the update.
    let updated_doc =
        mem.memory.documents().iter().find(|d| d.source_path.as_deref() == Some(file_str));
    assert!(updated_doc.is_some());
    assert!(updated_doc.unwrap().content.contains("data structures"));
    assert_eq!(updated_doc.unwrap().id, 2);
    assert!(updated_doc.unwrap().doc_type.same_as(&DocumentType::Memory));
}

#[test]
fn test_sync_removes_deleted_files() {
    let mut mem = make_persistent();

    let file_str = "project/ephemeral.txt";
    mem.write(file_str, "temporary content");
    mem.ingest("temporary content", DocumentType::Memory, Some(file_str)).unwrap();

    assert_eq!(mem.memory.documents().len(), 1);

    // Delete the file.
    mem.remove(file_str);

    let stats = mem.sync().unwrap();
    assert_eq!(stats.removed, 1);
    assert_eq!(mem.memory.documents().len(), 0);
    assert_eq!(*mem.hashes.borrow(), "{}");
    assert!(mem.recall("temporary content", 5).unwrap().is_empty());
}

#[test]
fn test_recall_typed() {
    let mut mem = make_persistent();

    mem.ingest("plan for optimizing search", DocumentType::Plan, None).unwrap();
    mem.ingest("RCA for search timeout bug", DocumentType::RCA, None).unwrap();
    mem.ingest("memory note about search patterns", DocumentType::Memory, None).unwrap();

    let plans = mem.recall_typed("search optimization", 10, &[DocumentType::Plan]).unwrap();
    for r in &plans {
        assert!(r.document.doc_type.same_as(&DocumentType::Plan));
    }
    assert_eq!(plans.len(), 1);
}

#[test]
fn test_persistence_across_opens() {
    let mut mem = make_persistent();
    mem.ingest("persistent data about Rust", DocumentType::Memory, None).unwrap();
    mem.ingest("persistent data about Python", DocumentType::Memory, None).unwrap();

    // Re-open.
    let mem = mem.reopened();
    assert_eq!(mem.memory.documents().len(), 2);

    let results = mem.recall("Rust", 5).unwrap();
    assert!(!results.is_empty());
}

#[test]
fn test_stats() {
    let mut mem = make_persistent();

    mem.ingest("doc one", DocumentType::Plan, None).unwrap();
    mem.ingest("doc two", DocumentType::RCA, None).unwrap();
    mem.ingest("doc three", DocumentType::Plan, None).unwrap();

    let stats = mem.memory.stats(4096);
    assert_eq!(stats.total_documents, 3);
    assert_eq!(stats.by_type.get(&DocumentType::Plan).unwrap(), 2);
    assert_eq!(stats.by_type.get(&DocumentType::RCA).unwrap(), 1);
    assert_eq!(stats.by_type.get(&DocumentType::Memory), None);
    // Four bytes to the token: 7 / 4, 7 / 4 and 9 / 4.
    assert_eq!(stats.total_tokens, 4);
    assert_eq!(stats.index_size_bytes, 4096);
}

#[test]
fn a_sync_after_which_nothing_changed_says_so() {
    let mut mem = make_persistent();
    mem.write("a.md", "first");
    mem.write("b.md", "second");
    mem.write("c.md", "third");
    assert_eq!(mem.ingest_all(&["a.md", "b.md", "c.md"], DocumentType::Plan).unwrap(), 3);
    // What was ingested is not ingested again, and a change is.
    assert_eq!(mem.ingest_all(&["a.md", "b.md"], DocumentType::Plan).unwrap(), 0);
    mem.write("b.md", "second, changed");
    mem.remove("c.md");
    let stats = mem.sync().unwrap();
    assert_eq!((stats.added, stats.updated, stats.removed, stats.unchanged), (0, 1, 1, 1));
    let again = mem.sync().unwrap();
    assert_eq!((again.added, again.updated, again.removed, again.unchanged), (0, 0, 0, 2));
    let ids: Vec<u64> = mem.memory.documents().iter().map(|d| d.id).collect();
    assert_eq!(ids, vec![1, 4]);
    // The hashes and the next identifier outlive the process.
    let mut mem = mem.reopened();
    assert_eq!(mem.sync().unwrap().unchanged, 2);
    assert_eq!(mem.memory.next_id(), 5);
    assert_eq!(mem.ingest("new", DocumentType::Memory, None).unwrap(), 5);
}

#[test]
fn failures_of_a_memory_say_where_they_came_from() {
    let mut mem = make_persistent();
    match mem.ingest_all(&["nowhere"], DocumentType::Plan) {
        Err(e) => assert_eq!(e.message(), "IO error: No such file or directory"),
        Ok(_) => panic!("a missing file was read"),
    }
    match PersistentMemory::open(vec![], Some("{")) {
        Err(AgentMemoryError::Serialization(m)) => {
            assert_eq!(m, "EOF while parsing an object at line 1 column 1")
        }
        _ => panic!("broken hashes were read"),
    }
    let unsaved = mem.with(|memory, p| {
        memory.ingest(
            "text",
            DocumentType::Plan,
            None,
            &|id: u64, text: &str| p.insert(id, text),
            &|_m: &PersistentMemory| Err(AgentMemoryError::Io("disk full".to_string())),
        )
    });
    assert!(matches!(unsaved, Err(AgentMemoryError::Io(_))));
    // The document was taken in all the same.
    assert_eq!(mem.memory.documents().len(), 1);
    let refused = mem.with(|memory, p| {
        memory.ingest(
            "text",
            DocumentType::Plan,
            None,
            &|_id: u64, _text: &str| Err(TurboError::Storage("full".to_string())),
            &|m: &PersistentMemory| p.save(m),
        )
    });
    assert!(matches!(refused, Err(AgentMemoryError::Turbo(TurboError::Storage(_)))));
    assert_eq!(mem.memory.documents().len(), 1);
    // The identifier of the refused document is not given again.
    assert_eq!(mem.ingest("more", DocumentType::Plan, None).unwrap(), 3);
    let unreadable = mem.with(|memory, p| {
        memory.sync(
            &|_path: &str| FileProbe::Unreadable("permission denied".to_string()),
            &|id: u64| p.index.borrow_mut().delete(id),
            &|id: u64, text: &str| p.insert(id, text),
            &|m: &PersistentMemory| p.save(m),
        )
    });
    assert!(unreadable.is_ok(), "no document has a file");
}

#[test]
fn an_unreadable_file_leaves_memory_and_index_alone() {
    let mut mem = make_persistent();
    mem.write("a.md", "first");
    mem.write("b.md", "second");
    mem.ingest_all(&["a.md", "b.md"], DocumentType::Plan).unwrap();
    let outcome = mem.with(|memory, _p| {
        memory.sync(
            &|path: &str| match path {
                "a.md" => FileProbe::Missing,
                _ => FileProbe::Unreadable("permission denied".to_string()),
            },
            &|_id: u64| panic!("the index was touched"),
            &|_id: u64, _text: &str| panic!("the index was touched"),
            &|_m: &PersistentMemory| panic!("the memory was saved"),
        )
    });
    match outcome {
        Err(e) => assert_eq!(e.message(), "IO error: permission denied"),
        Ok(_) => panic!("an unreadable file was passed over"),
    }
    assert_eq!(mem.memory.documents().len(), 2);
    assert_eq!(mem.search("first", 10).len(), 2);
}

#[test]
fn what_is_ingested_is_recalled() {
    let mut mem = make_persistent();
    for i in 0..7 {
        let kind = if i % 2 == 0 { DocumentType::Plan } else { DocumentType::RCA };
        mem.ingest(&format!("note number {i}"), kind, None).unwrap();
    }
    mem.write("a.md", "a file");
    mem.ingest_all(&["a.md"], DocumentType::Plan).unwrap();
    let ids = |found: Vec<RecallResult>| -> Vec<u64> {
        let mut ids: Vec<u64> = found.iter().map(|r| r.document.id).collect();
        ids.sort();
        ids
    };
    assert_eq!(ids(mem.recall("anything", 50).unwrap()), vec![1, 2, 3, 4, 5, 6, 7, 8]);
    assert_eq!(mem.recall("anything", 3).unwrap().len(), 3);
    assert_eq!(ids(mem.recall_typed("anything", 50, &[DocumentType::RCA]).unwrap()), vec![2, 4, 6]);
    mem.remove("a.md");
    mem.sync().unwrap();
    assert_eq!(ids(mem.recall("anything", 50).unwrap()), vec![1, 2, 3, 4, 5, 6, 7]);
    let mem = mem.reopened();
    assert_eq!(ids(mem.recall_typed("anything", 50, &[DocumentType::Plan]).unwrap()), vec![1, 3, 5, 7]);
}

#[test]
fn recall_filters_cuts_and_orders() {
    let mut mem = make_persistent();
    mem.ingest("one", DocumentType::Plan, None).unwrap();
    mem.ingest("two", DocumentType::Memory, None).unwrap();
    mem.ingest("three", DocumentType::Plan, None).unwrap();
    let hits = vec![found(3, 0.25), found(2, 0.9), found(1, 0.5), found(8, 1.0)];
    let now = mem.memory.documents()[0].timestamp + 1_000_000;
    let all = mem.memory.recall_at(&hits, 10, &[], now, &recency, &combine);
    let ids: Vec<u64> = all.iter().map(|r| r.document.id).collect();
    assert_eq!(ids, vec![2, 1, 3]);
    for w in all.windows(2) {
        assert!(float(w[0].combined_score) >= float(w[1].combined_score));
    }
    let plans = mem.memory.recall_at(&hits, 1, &[DocumentType::Plan], now, &recency, &combine);
    assert_eq!(plans.len(), 1);
    assert_eq!(plans[0].document.id, 1);
    let expected = 0.7f32 * 0.5 + 0.3f32 * float(plans[0].recency_score);
    assert_eq!(float(plans[0].combined_score), expected);
}
