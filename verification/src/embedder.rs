//! Embedding of texts.
//!
//! `MockEmbedder` derives a vector from the digest of a text. `OnnxEmbedder`
//! surrounds a model: it turns texts into tokens, lays these out for the model,
//! and pools what the model gives back. The model itself, and the arithmetic on
//! numbers, are supplied by the caller.
use crate::bytes::{lemma_reach, number};
use crate::digest::{sha256, sha256_digest};
use crate::error::AgentMemoryError;
use crate::scalar::Scalar;
use crate::tokenizing::{can_encode, encode_batch, is_encodable, is_plain, is_plain_for, shown, texts_of, tokens_of, Token};
use vstd::prelude::*;
use vstd::utf8::encode_utf8;

verus! {

/// The state to start from where a digest folds to zero.
pub const FALLBACK_SEED: u64 = 0xdead_beef;

/// The word in eight bytes of a digest.
pub open spec fn word_of(digest: Seq<u8>, k: int) -> u64 {
    number(digest.subrange(8 * k, 8 * k + 8)) as u64
}

/// The state that a digest starts from: its four words combined, and never zero.
pub open spec fn seed_of(digest: Seq<u8>) -> u64 {
    let folded = word_of(digest, 0) ^ word_of(digest, 1) ^ word_of(digest, 2) ^ word_of(digest, 3);
    if folded == 0 {
        FALLBACK_SEED
    } else {
        folded
    }
}

/// The next state of the generator.
pub open spec fn next_state(state: u64) -> u64 {
    let a = state ^ (state << 13u64);
    let b = a ^ (a >> 7u64);
    b ^ (b << 17u64)
}

/// The state after `n` steps.
pub open spec fn state_after(seed: u64, n: nat) -> u64
    decreases n,
{
    if n == 0 {
        seed
    } else {
        next_state(state_after(seed, (n - 1) as nat))
    }
}

/// The states that a text gives, one for each dimension.
pub open spec fn text_states(text: Seq<char>, dim: nat) -> Seq<u64> {
    Seq::new(dim, |i: int| state_after(seed_of(sha256(encode_utf8(text))), (i + 1) as nat))
}

fn read_word(data: &Vec<u8>, offset: usize) -> (r: u64)
    requires
        offset + 8 <= data@.len(),
    ensures
        r == number(data@.subrange(offset as int, offset + 8)),
{
    assert(data@.len() == data.len());
    let low: u32 = crate::bytes::read_u32(data.as_slice(), offset);
    let high: u32 = crate::bytes::read_u32(data.as_slice(), offset + 4);
    proof {
        let s = data@.subrange(offset as int, offset + 8);
        crate::bytes::lemma_number_split(s, 4);
        assert(s.take(4) =~= data@.subrange(offset as int, offset + 4));
        assert(s.skip(4) =~= data@.subrange(offset + 4, offset + 8));
        lemma_reach();
    }
    low as u64 + 0x1_0000_0000 * (high as u64)
}

/// An embedder that derives a vector from the digest of a text: equal texts give equal
/// vectors.
pub struct MockEmbedder {
    dim: usize,
}

impl MockEmbedder {
    /// The number of dimensions.
    pub closed spec fn dimension(&self) -> usize {
        self.dim
    }

    /// An embedder of the given number of dimensions.
    pub fn new(dim: usize) -> (r: MockEmbedder)
        ensures
            r.dimension() == dim,
    {
        MockEmbedder { dim }
    }

    /// The number of dimensions.
    pub fn dim(&self) -> (r: usize)
        ensures
            r == self.dimension(),
    {
        self.dim
    }

    /// The states that a text gives, one for each dimension.
    pub fn states(&self, text: &str) -> (r: Vec<u64>)
        ensures
            r@ == text_states(text@, self.dimension() as nat),
    {
        let hash: Vec<u8> = sha256_digest(text.as_bytes());
        let mut state: u64 = read_word(&hash, 0) ^ read_word(&hash, 8) ^ read_word(&hash, 16) ^ read_word(&hash, 24);
        if state == 0 {
            state = FALLBACK_SEED;
        }
        let ghost seed = seed_of(hash@);
        assert(state == seed);
        let mut states: Vec<u64> = Vec::with_capacity(self.dim);
        let mut i: usize = 0;
        while i < self.dim
            invariant
                i <= self.dim,
                state == state_after(seed, i as nat),
                states@ =~= Seq::new(i as nat, |k: int| state_after(seed, (k + 1) as nat)),
            decreases self.dim - i,
        {
            state = state ^ (state << 13u64);
            state = state ^ (state >> 7u64);
            state = state ^ (state << 17u64);
            states.push(state);
            i = i + 1;
        }
        assert(states@ =~= text_states(text@, self.dim as nat));
        states
    }

    /// `r` is the vector of a text: `value` gives a coordinate for each state, and
    /// `normalize` scales them to unit length.
    pub open spec fn embedded<V: Fn(u64) -> Scalar, N: Fn(&Vec<Scalar>) -> Vec<Scalar>>(
        &self,
        text: Seq<char>,
        value: V,
        normalize: N,
        r: Vec<Scalar>,
    ) -> bool {
        exists|values: &Vec<Scalar>|
            {
                &&& values@.len() == self.dimension()
                &&& forall|i: int|
                    0 <= i < values@.len() ==> value.ensures(
                        (text_states(text, self.dimension() as nat)[i],),
                        #[trigger] values@[i],
                    )
                &&& #[trigger] normalize.ensures((values,), r)
            }
    }

    /// The vector of a text.
    pub fn embed<V: Fn(u64) -> Scalar, N: Fn(&Vec<Scalar>) -> Vec<Scalar>>(
        &self,
        text: &str,
        value: &V,
        normalize: &N,
    ) -> (r: Vec<Scalar>)
        requires
            forall|s: u64| #[trigger] value.requires((s,)),
            forall|v: &Vec<Scalar>| #[trigger] normalize.requires((v,)),
        ensures
            self.embedded(text@, *value, *normalize, r),
    {
        let states: Vec<u64> = self.states(text);
        let mut values: Vec<Scalar> = Vec::with_capacity(self.dim);
        let mut i: usize = 0;
        while i < states.len()
            invariant
                i <= states@.len(),
                values@.len() == i,
                forall|s: u64| #[trigger] value.requires((s,)),
                forall|k: int| 0 <= k < i ==> value.ensures((states@[k],), #[trigger] values@[k]),
            decreases states@.len() - i,
        {
            values.push(value(states[i]));
            i = i + 1;
        }
        let r: Vec<Scalar> = normalize(&values);
        let ghost v = &values;
        assert(normalize.ensures((v,), r));
        r
    }

    /// The vectors of several texts, in order.
    pub fn embed_batch<V: Fn(u64) -> Scalar, N: Fn(&Vec<Scalar>) -> Vec<Scalar>>(
        &self,
        texts: &[&str],
        value: &V,
        normalize: &N,
    ) -> (r: Vec<Vec<Scalar>>)
        requires
            forall|s: u64| #[trigger] value.requires((s,)),
            forall|v: &Vec<Scalar>| #[trigger] normalize.requires((v,)),
        ensures
            r@.len() == texts@.len(),
            forall|i: int| 0 <= i < r@.len() ==> self.embedded(texts@[i]@, *value, *normalize, #[trigger] r@[i]),
    {
        let mut all: Vec<Vec<Scalar>> = Vec::with_capacity(texts.len());
        let mut i: usize = 0;
        while i < texts.len()
            invariant
                i <= texts@.len(),
                all@.len() == i,
                forall|s: u64| #[trigger] value.requires((s,)),
                forall|v: &Vec<Scalar>| #[trigger] normalize.requires((v,)),
                forall|k: int| 0 <= k < i ==> self.embedded(texts@[k]@, *value, *normalize, #[trigger] all@[k]),
            decreases texts@.len() - i,
        {
            all.push(self.embed(texts[i], value, normalize));
            i = i + 1;
        }
        all
    }
}

/// The generator starts from a state that is not zero and never reaches zero.
pub proof fn law_states_never_zero(digest: Seq<u8>, n: nat)
    ensures
        state_after(seed_of(digest), n) != 0,
    decreases n,
{
    if n > 0 {
        law_states_never_zero(digest, (n - 1) as nat);
        let s = state_after(seed_of(digest), (n - 1) as nat);
        let a = s ^ (s << 13u64);
        let b = a ^ (a >> 7u64);
        let c = b ^ (b << 17u64);
        assert(s != 0 ==> c != 0) by (bit_vector)
            requires
                a == s ^ (s << 13u64),
                b == a ^ (a >> 7u64),
                c == b ^ (b << 17u64),
        ;
    }
}

/// Equal texts give equal vectors, whether alone or in a batch, where `value` and `normalize`
/// have one result for equal arguments.
pub proof fn law_equal_texts_equal_vectors<V: Fn(u64) -> Scalar, N: Fn(&Vec<Scalar>) -> Vec<Scalar>>(
    embedder: MockEmbedder,
    text: Seq<char>,
    value: V,
    normalize: N,
    one: Vec<Scalar>,
    other: Vec<Scalar>,
)
    requires
        forall|s: u64, a: Scalar, b: Scalar| #[trigger]
            value.ensures((s,), a) && #[trigger] value.ensures((s,), b) ==> a == b,
        forall|x: &Vec<Scalar>, y: &Vec<Scalar>, a: Vec<Scalar>, b: Vec<Scalar>|
            x@ == y@ && #[trigger] normalize.ensures((x,), a) && #[trigger] normalize.ensures((y,), b) ==> a@ == b@,
        embedder.embedded(text, value, normalize, one),
        embedder.embedded(text, value, normalize, other),
    ensures
        one@ == other@,
{
    let states = text_states(text, embedder.dimension() as nat);
    let x = choose|values: &Vec<Scalar>|
        {
            &&& values@.len() == embedder.dimension()
            &&& forall|i: int| 0 <= i < values@.len() ==> value.ensures((states[i],), #[trigger] values@[i])
            &&& #[trigger] normalize.ensures((values,), one)
        };
    let y = choose|values: &Vec<Scalar>|
        {
            &&& values@.len() == embedder.dimension()
            &&& forall|i: int| 0 <= i < values@.len() ==> value.ensures((states[i],), #[trigger] values@[i])
            &&& #[trigger] normalize.ensures((values,), other)
        };
    assert forall|i: int| 0 <= i < x@.len() implies x@[i] == y@[i] by {
        assert(value.ensures((states[i],), x@[i]));
        assert(value.ensures((states[i],), y@[i]));
    }
    assert(x@ =~= y@);
}

/// A batch gives the vectors that its texts give alone, where `value` and `normalize` have one
/// result for equal arguments.
pub proof fn law_batch_is_singles<V: Fn(u64) -> Scalar, N: Fn(&Vec<Scalar>) -> Vec<Scalar>>(
    embedder: MockEmbedder,
    texts: Seq<&str>,
    value: V,
    normalize: N,
    batch: Seq<Vec<Scalar>>,
    singles: Seq<Vec<Scalar>>,
)
    requires
        forall|s: u64, a: Scalar, b: Scalar| #[trigger]
            value.ensures((s,), a) && #[trigger] value.ensures((s,), b) ==> a == b,
        forall|x: &Vec<Scalar>, y: &Vec<Scalar>, a: Vec<Scalar>, b: Vec<Scalar>|
            x@ == y@ && #[trigger] normalize.ensures((x,), a) && #[trigger] normalize.ensures((y,), b) ==> a@ == b@,
        batch.len() == texts.len(),
        forall|i: int| 0 <= i < batch.len() ==> embedder.embedded(texts[i]@, value, normalize, #[trigger] batch[i]),
        singles.len() == texts.len(),
        forall|i: int| 0 <= i < singles.len() ==> embedder.embedded(texts[i]@, value, normalize, #[trigger] singles[i]),
    ensures
        forall|i: int| 0 <= i < batch.len() ==> (#[trigger] batch[i])@ == singles[i]@,
{
    assert forall|i: int| 0 <= i < batch.len() implies (#[trigger] batch[i])@ == singles[i]@ by {
        assert(embedder.embedded(texts[i]@, value, normalize, singles[i]));
        law_equal_texts_equal_vectors(embedder, texts[i]@, value, normalize, batch[i], singles[i]);
    }
}

/// The tokens of several texts as the model takes them: a row for each text, and as many
/// columns as the longest one has tokens.
pub struct ModelInputs {
    pub rows: usize,
    pub columns: usize,
    pub input_ids: Vec<i64>,
    pub attention_mask: Vec<i64>,
    /// The parts that tokens belong to, where the model takes them.
    pub token_type_ids: Option<Vec<i64>>,
}

/// The number of tokens of the longest text.
pub open spec fn longest(batch: Seq<Vec<Token>>) -> nat
    decreases batch.len(),
{
    if batch.len() == 0 {
        0
    } else {
        let before = longest(batch.drop_last());
        let last = batch.last()@.len();
        if last > before {
            last
        } else {
            before
        }
    }
}

/// `laid` holds a number for each token, row by row, and zero behind the last token of a row.
pub open spec fn is_laid_out(
    batch: Seq<Vec<Token>>,
    columns: int,
    part: spec_fn(Token) -> u32,
    laid: Seq<i64>,
) -> bool {
    &&& laid.len() == batch.len() * columns
    &&& forall|i: int, j: int|
        #![trigger laid[i * columns + j]]
        0 <= i < batch.len() && 0 <= j < columns ==> laid[i * columns + j] == (if j < batch[i]@.len() {
            part(batch[i]@[j]) as i64
        } else {
            0
        })
}

/// The inputs are the tokens of the batch, with the parts only where they are asked for.
pub open spec fn are_inputs(batch: Seq<Vec<Token>>, with_types: bool, r: ModelInputs) -> bool {
    &&& r.rows == batch.len()
    &&& r.columns == longest(batch)
    &&& is_laid_out(batch, r.columns as int, |t: Token| t.id, r.input_ids@)
    &&& is_laid_out(batch, r.columns as int, |t: Token| t.mask, r.attention_mask@)
    &&& r.token_type_ids is Some <==> with_types
    &&& r.token_type_ids matches Some(types) ==> is_laid_out(
        batch,
        r.columns as int,
        |t: Token| t.type_id,
        types@,
    )
}

proof fn lemma_longest(batch: Seq<Vec<Token>>)
    ensures
        forall|i: int| 0 <= i < batch.len() ==> (#[trigger] batch[i])@.len() <= longest(batch),
    decreases batch.len(),
{
    if batch.len() > 0 {
        lemma_longest(batch.drop_last());
        assert forall|i: int| 0 <= i < batch.len() implies (#[trigger] batch[i])@.len() <= longest(batch) by {
            if i < batch.len() - 1 {
                assert(batch.drop_last()[i] == batch[i]);
            }
        }
    }
}

fn find_longest(batch: &Vec<Vec<Token>>) -> (r: usize)
    ensures
        r == longest(batch@),
{
    let mut columns: usize = 0;
    let mut i: usize = 0;
    while i < batch.len()
        invariant
            i <= batch@.len(),
            columns == longest(batch@.take(i as int)),
        decreases batch@.len() - i,
    {
        assert(batch@.take(i + 1).drop_last() =~= batch@.take(i as int));
        if batch[i].len() > columns {
            columns = batch[i].len();
        }
        i = i + 1;
    }
    assert(batch@.take(i as int) =~= batch@);
    columns
}

proof fn lemma_row_grows(
    batch: Seq<Vec<Token>>,
    i: int,
    columns: int,
    part: spec_fn(Token) -> u32,
    before: Seq<i64>,
    row: Seq<i64>,
)
    requires
        0 <= i < batch.len(),
        0 <= columns,
        is_laid_out(batch.take(i), columns, part, before),
        row.len() == columns,
        forall|j: int|
            0 <= j < columns ==> #[trigger] row[j] == (if j < batch[i]@.len() {
                part(batch[i]@[j]) as i64
            } else {
                0
            }),
    ensures
        is_laid_out(batch.take(i + 1), columns, part, before + row),
{
    let more = batch.take(i + 1);
    let all = before + row;
    assert(i * columns + columns == (i + 1) * columns) by (nonlinear_arith);
    assert forall|a: int, j: int|
        #![trigger all[a * columns + j]]
        0 <= a < more.len() && 0 <= j < columns implies all[a * columns + j] == (if j < more[a]@.len() {
        part(more[a]@[j]) as i64
    } else {
        0
    }) by {
        if a < i {
            assert(0 <= a * columns && a * columns + j < i * columns) by (nonlinear_arith)
                requires
                    0 <= a < i,
                    0 <= j < columns,
            ;
            assert(all[a * columns + j] == before[a * columns + j]);
            assert(batch.take(i)[a] == more[a]);
        } else {
            assert(all[a * columns + j] == row[j]);
        }
    }
}

/// Lays out the tokens of several texts for the model.
pub fn pad_batch(batch: &Vec<Vec<Token>>, with_types: bool) -> (r: ModelInputs)
    ensures
        are_inputs(batch@, with_types, r),
{
    let columns: usize = find_longest(batch);
    let mut input_ids: Vec<i64> = Vec::new();
    let mut attention_mask: Vec<i64> = Vec::new();
    let mut type_ids: Vec<i64> = Vec::new();
    let ghost ids = |t: Token| t.id;
    let ghost masks = |t: Token| t.mask;
    let ghost types = |t: Token| t.type_id;
    let ghost width = columns as int;
    proof {
        lemma_longest(batch@);
        assert(batch@.take(0).len() * width == 0) by (nonlinear_arith)
            requires
                batch@.take(0).len() == 0,
        ;
    }
    let mut i: usize = 0;
    while i < batch.len()
        invariant
            i <= batch@.len(),
            width == columns,
            columns == longest(batch@),
            forall|k: int| 0 <= k < batch@.len() ==> (#[trigger] batch@[k])@.len() <= columns,
            ids == (|t: Token| t.id),
            masks == (|t: Token| t.mask),
            types == (|t: Token| t.type_id),
            is_laid_out(batch@.take(i as int), width, ids, input_ids@),
            is_laid_out(batch@.take(i as int), width, masks, attention_mask@),
            is_laid_out(batch@.take(i as int), width, types, type_ids@),
        decreases batch@.len() - i,
    {
        let ghost (a, b, c) = (input_ids@, attention_mask@, type_ids@);
        let row: &Vec<Token> = &batch[i];
        let mut j: usize = 0;
        while j < columns
            invariant
                i < batch@.len(),
                row == batch@[i as int],
                j <= columns,
                input_ids@.len() == a.len() + j,
                attention_mask@.len() == b.len() + j,
                type_ids@.len() == c.len() + j,
                a =~= input_ids@.take(a.len() as int),
                b =~= attention_mask@.take(b.len() as int),
                c =~= type_ids@.take(c.len() as int),
                forall|k: int|
                    0 <= k < j ==> #[trigger] input_ids@.skip(a.len() as int)[k] == (if k < row@.len() {
                        row@[k].id as i64
                    } else {
                        0
                    }),
                forall|k: int|
                    0 <= k < j ==> #[trigger] attention_mask@.skip(b.len() as int)[k] == (if k < row@.len() {
                        row@[k].mask as i64
                    } else {
                        0
                    }),
                forall|k: int|
                    0 <= k < j ==> #[trigger] type_ids@.skip(c.len() as int)[k] == (if k < row@.len() {
                        row@[k].type_id as i64
                    } else {
                        0
                    }),
            decreases columns - j,
        {
            let ghost (x, y, z) = (input_ids@, attention_mask@, type_ids@);
            if j < row.len() {
                let t: Token = row[j];
                input_ids.push(t.id as i64);
                attention_mask.push(t.mask as i64);
                type_ids.push(t.type_id as i64);
            } else {
                input_ids.push(0);
                attention_mask.push(0);
                type_ids.push(0);
            }
            proof {
                assert forall|k: int| 0 <= k < j implies #[trigger] input_ids@.skip(a.len() as int)[k] == x.skip(
                    a.len() as int,
                )[k] by {}
                assert forall|k: int| 0 <= k < j implies #[trigger] attention_mask@.skip(b.len() as int)[k] == y.skip(
                    b.len() as int,
                )[k] by {}
                assert forall|k: int| 0 <= k < j implies #[trigger] type_ids@.skip(c.len() as int)[k] == z.skip(
                    c.len() as int,
                )[k] by {}
            }
            j = j + 1;
        }
        proof {
            lemma_row_grows(batch@, i as int, width, ids, a, input_ids@.skip(a.len() as int));
            lemma_row_grows(batch@, i as int, width, masks, b, attention_mask@.skip(b.len() as int));
            lemma_row_grows(batch@, i as int, width, types, c, type_ids@.skip(c.len() as int));
            assert(input_ids@ =~= a + input_ids@.skip(a.len() as int));
            assert(attention_mask@ =~= b + attention_mask@.skip(b.len() as int));
            assert(type_ids@ =~= c + type_ids@.skip(c.len() as int));
        }
        i = i + 1;
    }
    assert(batch@.take(i as int) =~= batch@);
    let token_type_ids: Option<Vec<i64>> = if with_types {
        Some(type_ids)
    } else {
        None
    };
    ModelInputs { rows: batch.len(), columns, input_ids, attention_mask, token_type_ids }
}

/// The positions of the tokens that the model attends to.
pub open spec fn attended(tokens: Seq<Token>) -> Seq<int>
    decreases tokens.len(),
{
    if tokens.len() == 0 {
        Seq::empty()
    } else {
        let before = attended(tokens.drop_last());
        if tokens.last().mask > 0 {
            before.push(tokens.len() - 1)
        } else {
            before
        }
    }
}

/// Coordinate `d` of what the model gave for the token at `position` of row `row`.
pub open spec fn hidden_at(hidden: Seq<Scalar>, columns: int, dim: int, row: int, position: int, d: int) -> Scalar {
    hidden[(row * columns + position) * dim + d]
}

/// `sums` starts at zero, and each further element is what `plus` gave for the one before and
/// coordinate `d` of the next of the positions.
pub open spec fn is_row_fold<A: Fn(Scalar, Scalar) -> Scalar>(
    hidden: Seq<Scalar>,
    columns: int,
    dim: int,
    row: int,
    positions: Seq<int>,
    d: int,
    plus: A,
    sums: Seq<Scalar>,
) -> bool {
    &&& sums.len() == positions.len() + 1
    &&& sums[0] == (Scalar { bits: 0 })
    &&& forall|k: int|
        0 <= k < positions.len() ==> plus.ensures(
            (sums[k], hidden_at(hidden, columns, dim, row, #[trigger] positions[k], d)),
            sums[k + 1],
        )
}

/// `sum` is what adding up coordinate `d` over the positions of a row ends with.
pub open spec fn is_row_sum<A: Fn(Scalar, Scalar) -> Scalar>(
    hidden: Seq<Scalar>,
    columns: int,
    dim: int,
    row: int,
    positions: Seq<int>,
    d: int,
    plus: A,
    sum: Scalar,
) -> bool {
    exists|sums: Seq<Scalar>| #[trigger]
        is_row_fold(hidden, columns, dim, row, positions, d, plus, sums) && sums.last() == sum
}

proof fn lemma_row_sum_grows<A: Fn(Scalar, Scalar) -> Scalar>(
    hidden: Seq<Scalar>,
    columns: int,
    dim: int,
    row: int,
    positions: Seq<int>,
    position: int,
    d: int,
    plus: A,
    sum: Scalar,
    next: Scalar,
)
    requires
        is_row_sum(hidden, columns, dim, row, positions, d, plus, sum),
        plus.ensures((sum, hidden_at(hidden, columns, dim, row, position, d)), next),
    ensures
        is_row_sum(hidden, columns, dim, row, positions.push(position), d, plus, next),
{
    let sums = choose|sums: Seq<Scalar>| #[trigger]
        is_row_fold(hidden, columns, dim, row, positions, d, plus, sums) && sums.last() == sum;
    let more = sums.push(next);
    let all = positions.push(position);
    assert forall|k: int| 0 <= k < all.len() implies plus.ensures(
        (more[k], hidden_at(hidden, columns, dim, row, #[trigger] all[k], d)),
        more[k + 1],
    ) by {
        assert(more[k] == sums[k]);
        if k < positions.len() {
            assert(all[k] == positions[k]);
            assert(more[k + 1] == sums[k + 1]);
        }
    }
    assert(is_row_fold(hidden, columns, dim, row, all, d, plus, more));
}

/// `value` is what `divide` gave for the sum of coordinate `d` and the number of positions,
/// or the sum itself where there is none.
pub open spec fn is_mean_at<A: Fn(Scalar, Scalar) -> Scalar, Q: Fn(Scalar, usize) -> Scalar>(
    hidden: Seq<Scalar>,
    columns: int,
    dim: int,
    row: int,
    positions: Seq<int>,
    d: int,
    plus: A,
    divide: Q,
    value: Scalar,
) -> bool {
    exists|sum: Scalar|
        {
            &&& #[trigger] is_row_sum(hidden, columns, dim, row, positions, d, plus, sum)
            &&& if positions.len() > 0 {
                divide.ensures((sum, positions.len() as usize), value)
            } else {
                value == sum
            }
        }
}

/// `mean` holds the mean of every coordinate over the tokens attended to.
pub open spec fn is_row_mean<A: Fn(Scalar, Scalar) -> Scalar, Q: Fn(Scalar, usize) -> Scalar>(
    hidden: Seq<Scalar>,
    columns: int,
    dim: int,
    row: int,
    tokens: Seq<Token>,
    plus: A,
    divide: Q,
    mean: Seq<Scalar>,
) -> bool {
    &&& mean.len() == dim
    &&& forall|d: int|
        0 <= d < dim ==> is_mean_at(
            hidden,
            columns,
            dim,
            row,
            attended(tokens),
            d,
            plus,
            divide,
            #[trigger] mean[d],
        )
}

/// The vector of row `row`: the mean over the tokens attended to, as `normalize` scales it.
pub open spec fn is_pooled<
    A: Fn(Scalar, Scalar) -> Scalar,
    Q: Fn(Scalar, usize) -> Scalar,
    N: Fn(&Vec<Scalar>) -> Vec<Scalar>,
>(
    hidden: Seq<Scalar>,
    columns: int,
    dim: int,
    row: int,
    tokens: Seq<Token>,
    plus: A,
    divide: Q,
    normalize: N,
    r: Vec<Scalar>,
) -> bool {
    exists|mean: &Vec<Scalar>|
        is_row_mean(hidden, columns, dim, row, tokens, plus, divide, mean@) && #[trigger] normalize.ensures((mean,), r)
}

proof fn lemma_attended_within(tokens: Seq<Token>)
    ensures
        forall|k: int| 0 <= k < attended(tokens).len() ==> 0 <= #[trigger] attended(tokens)[k] < tokens.len(),
    decreases tokens.len(),
{
    if tokens.len() > 0 {
        let rest = tokens.drop_last();
        lemma_attended_within(rest);
        assert forall|k: int| 0 <= k < attended(tokens).len() implies 0 <= #[trigger] attended(tokens)[k]
            < tokens.len() by {
            if k < attended(rest).len() {
                assert(attended(tokens)[k] == attended(rest)[k]);
            }
        }
    }
}

/// What the model gave for the tokens of a row in one batch, and for those of a row in another,
/// is the same.
pub open spec fn same_rows(
    hidden: Seq<Scalar>,
    columns: int,
    row: int,
    other_hidden: Seq<Scalar>,
    other_columns: int,
    other_row: int,
    dim: int,
    count: int,
) -> bool {
    forall|p: int, d: int|
        0 <= p < count && 0 <= d < dim ==> #[trigger] hidden_at(hidden, columns, dim, row, p, d) == hidden_at(
            other_hidden,
            other_columns,
            dim,
            other_row,
            p,
            d,
        )
}

proof fn lemma_pooled_carries<
    A: Fn(Scalar, Scalar) -> Scalar,
    Q: Fn(Scalar, usize) -> Scalar,
    N: Fn(&Vec<Scalar>) -> Vec<Scalar>,
>(
    hidden: Seq<Scalar>,
    columns: int,
    row: int,
    other_hidden: Seq<Scalar>,
    other_columns: int,
    other_row: int,
    dim: int,
    tokens: Seq<Token>,
    plus: A,
    divide: Q,
    normalize: N,
    r: Vec<Scalar>,
)
    requires
        same_rows(hidden, columns, row, other_hidden, other_columns, other_row, dim, tokens.len() as int),
        is_pooled(hidden, columns, dim, row, tokens, plus, divide, normalize, r),
    ensures
        is_pooled(other_hidden, other_columns, dim, other_row, tokens, plus, divide, normalize, r),
{
    let positions = attended(tokens);
    lemma_attended_within(tokens);
    let mean = choose|mean: &Vec<Scalar>|
        is_row_mean(hidden, columns, dim, row, tokens, plus, divide, mean@) && #[trigger] normalize.ensures((mean,), r);
    assert forall|d: int| 0 <= d < dim implies is_mean_at(
        other_hidden,
        other_columns,
        dim,
        other_row,
        positions,
        d,
        plus,
        divide,
        #[trigger] mean@[d],
    ) by {
        assert(is_mean_at(hidden, columns, dim, row, positions, d, plus, divide, mean@[d]));
        let sum = choose|sum: Scalar|
            {
                &&& #[trigger] is_row_sum(hidden, columns, dim, row, positions, d, plus, sum)
                &&& if positions.len() > 0 {
                    divide.ensures((sum, positions.len() as usize), mean@[d])
                } else {
                    mean@[d] == sum
                }
            };
        let sums = choose|sums: Seq<Scalar>| #[trigger]
            is_row_fold(hidden, columns, dim, row, positions, d, plus, sums) && sums.last() == sum;
        assert forall|k: int| 0 <= k < positions.len() implies plus.ensures(
            (sums[k], hidden_at(other_hidden, other_columns, dim, other_row, #[trigger] positions[k], d)),
            sums[k + 1],
        ) by {
            assert(hidden_at(hidden, columns, dim, row, positions[k], d) == hidden_at(
                other_hidden,
                other_columns,
                dim,
                other_row,
                positions[k],
                d,
            ));
        }
        assert(is_row_fold(other_hidden, other_columns, dim, other_row, positions, d, plus, sums));
        assert(is_row_sum(other_hidden, other_columns, dim, other_row, positions, d, plus, sum));
    }
}

/// The vector of a text does not depend on the rest of its batch, where what the model gives
/// for its tokens does not: a vector is one for the row of the one batch just where it is one
/// for the row of the other.
pub proof fn law_vector_ignores_the_batch<
    A: Fn(Scalar, Scalar) -> Scalar,
    Q: Fn(Scalar, usize) -> Scalar,
    N: Fn(&Vec<Scalar>) -> Vec<Scalar>,
>(
    hidden: Seq<Scalar>,
    columns: int,
    row: int,
    other_hidden: Seq<Scalar>,
    other_columns: int,
    other_row: int,
    dim: int,
    tokens: Seq<Token>,
    plus: A,
    divide: Q,
    normalize: N,
    r: Vec<Scalar>,
)
    requires
        same_rows(hidden, columns, row, other_hidden, other_columns, other_row, dim, tokens.len() as int),
    ensures
        is_pooled(hidden, columns, dim, row, tokens, plus, divide, normalize, r) == is_pooled(
            other_hidden,
            other_columns,
            dim,
            other_row,
            tokens,
            plus,
            divide,
            normalize,
            r,
        ),
{
    assert forall|p: int, d: int| 0 <= p < tokens.len() && 0 <= d < dim implies #[trigger] hidden_at(
        other_hidden,
        other_columns,
        dim,
        other_row,
        p,
        d,
    ) == hidden_at(hidden, columns, dim, row, p, d) by {
        let same = hidden_at(hidden, columns, dim, row, p, d);
    }
    if is_pooled(hidden, columns, dim, row, tokens, plus, divide, normalize, r) {
        lemma_pooled_carries(
            hidden,
            columns,
            row,
            other_hidden,
            other_columns,
            other_row,
            dim,
            tokens,
            plus,
            divide,
            normalize,
            r,
        );
    }
    if is_pooled(other_hidden, other_columns, dim, other_row, tokens, plus, divide, normalize, r) {
        lemma_pooled_carries(
            other_hidden,
            other_columns,
            other_row,
            hidden,
            columns,
            row,
            dim,
            tokens,
            plus,
            divide,
            normalize,
            r,
        );
    }
}

proof fn lemma_hidden_index(row: int, rows: int, columns: int, position: int, dim: int, d: int)
    requires
        0 <= row < rows,
        0 <= position < columns,
        0 <= d < dim,
    ensures
        0 <= row * columns,
        row * columns + position < rows * columns,
        0 <= (row * columns + position) * dim,
        (row * columns + position) * dim + d < rows * columns * dim,
{
    assert(0 <= row * columns && row * columns + position < rows * columns) by (nonlinear_arith)
        requires
            0 <= row < rows,
            0 <= position < columns,
    ;
    let (at, n) = (row * columns + position, rows * columns);
    assert(0 <= at * dim && at * dim + d < n * dim) by (nonlinear_arith)
        requires
            0 <= at < n,
            0 <= d < dim,
    ;
}

fn pool_row<A: Fn(Scalar, Scalar) -> Scalar, Q: Fn(Scalar, usize) -> Scalar>(
    tokens: &Vec<Token>,
    hidden: &Vec<Scalar>,
    columns: usize,
    dim: usize,
    row: usize,
    rows: usize,
    plus: &A,
    divide: &Q,
) -> (r: Vec<Scalar>)
    requires
        row < rows,
        tokens@.len() <= columns,
        rows * columns * dim <= hidden@.len(),
        forall|a: Scalar, b: Scalar| #[trigger] plus.requires((a, b)),
        forall|a: Scalar, n: usize| #[trigger] divide.requires((a, n)),
    ensures
        is_row_mean(hidden@, columns as int, dim as int, row as int, tokens@, *plus, *divide, r@),
{
    let zero = Scalar { bits: 0 };
    let mut pooled: Vec<Scalar> = vec![zero; dim];
    let mut count: usize = 0;
    let ghost (w, n, i) = (columns as int, dim as int, row as int);
    proof {
        assert forall|d: int| 0 <= d < n implies is_row_sum(
            hidden@,
            w,
            n,
            i,
            attended(tokens@.take(0)),
            d,
            *plus,
            #[trigger] pooled@[d],
        ) by {
            assert(is_row_fold(hidden@, w, n, i, attended(tokens@.take(0)), d, *plus, seq![zero]));
        }
    }
    let mut j: usize = 0;
    while j < tokens.len()
        invariant
            j <= tokens@.len() <= columns,
            row < rows,
            w == columns && n == dim && i == row,
            rows * columns * dim <= hidden@.len(),
            forall|a: Scalar, b: Scalar| #[trigger] plus.requires((a, b)),
            pooled@.len() == dim,
            count == attended(tokens@.take(j as int)).len(),
            count <= j,
            forall|d: int|
                0 <= d < n ==> is_row_sum(
                    hidden@,
                    w,
                    n,
                    i,
                    attended(tokens@.take(j as int)),
                    d,
                    *plus,
                    #[trigger] pooled@[d],
                ),
        decreases tokens@.len() - j,
    {
        let ghost before = attended(tokens@.take(j as int));
        let ghost after = attended(tokens@.take(j + 1));
        assert(tokens@.take(j + 1).drop_last() =~= tokens@.take(j as int));
        if tokens[j].mask > 0 {
            count = count + 1;
            assert(after == before.push(j as int));
            let mut d: usize = 0;
            while d < dim
                invariant
                    d <= dim,
                    j < tokens@.len() <= columns,
                    row < rows,
                    w == columns && n == dim && i == row,
                    rows * columns * dim <= hidden@.len(),
                    after == before.push(j as int),
                    forall|a: Scalar, b: Scalar| #[trigger] plus.requires((a, b)),
                    pooled@.len() == dim,
                    forall|e: int|
                        0 <= e < n ==> is_row_sum(
                            hidden@,
                            w,
                            n,
                            i,
                            if e < d {
                                after
                            } else {
                                before
                            },
                            e,
                            *plus,
                            #[trigger] pooled@[e],
                        ),
                decreases dim - d,
            {
                proof {
                    lemma_hidden_index(i, rows as int, w, j as int, n, d as int);
                    assert(hidden@.len() == hidden.len());
                    assert(row * columns + j <= (row * columns + j) * dim) by (nonlinear_arith)
                        requires
                            dim >= 1,
                            row * columns + j >= 0,
                    ;
                }
                let offset: usize = (row * columns + j) * dim;
                let sum: Scalar = pooled[d];
                let next: Scalar = plus(sum, hidden[offset + d]);
                proof {
                    lemma_row_sum_grows(hidden@, w, n, i, before, j as int, d as int, *plus, sum, next);
                }
                let ghost old_pooled = pooled@;
                pooled.set(d, next);
                proof {
                    assert forall|e: int| 0 <= e < n implies is_row_sum(
                        hidden@,
                        w,
                        n,
                        i,
                        if e < d + 1 {
                            after
                        } else {
                            before
                        },
                        e,
                        *plus,
                        #[trigger] pooled@[e],
                    ) by {
                        if e != d {
                            assert(pooled@[e] == old_pooled[e]);
                        }
                    }
                }
                d = d + 1;
            }
        } else {
            assert(after == before);
        }
        j = j + 1;
    }
    assert(tokens@.take(j as int) =~= tokens@);
    let ghost sums = pooled@;
    if count > 0 {
        let mut d: usize = 0;
        while d < dim
            invariant
                d <= dim,
                n == dim,
                pooled@.len() == dim,
                sums.len() == dim,
                forall|a: Scalar, k: usize| #[trigger] divide.requires((a, k)),
                forall|e: int| 0 <= e < d ==> divide.ensures((sums[e], count), #[trigger] pooled@[e]),
                forall|e: int| d <= e < n ==> #[trigger] pooled@[e] == sums[e],
            decreases dim - d,
        {
            let quotient: Scalar = divide(pooled[d], count);
            pooled.set(d, quotient);
            d = d + 1;
        }
    }
    proof {
        assert forall|d: int| 0 <= d < n implies is_mean_at(
            hidden@,
            w,
            n,
            i,
            attended(tokens@),
            d,
            *plus,
            *divide,
            #[trigger] pooled@[d],
        ) by {
            assert(is_row_sum(hidden@, w, n, i, attended(tokens@), d, *plus, sums[d]));
        }
    }
    pooled
}

/// The vectors of several texts from what the model gave for their tokens: for each text the
/// mean over the tokens that the model attends to, scaled to unit length.
///
/// `plus` adds two numbers, `divide` divides by a count, and `normalize` scales to unit length.
pub fn mean_pool<
    A: Fn(Scalar, Scalar) -> Scalar,
    Q: Fn(Scalar, usize) -> Scalar,
    N: Fn(&Vec<Scalar>) -> Vec<Scalar>,
>(
    batch: &Vec<Vec<Token>>,
    hidden: &Vec<Scalar>,
    columns: usize,
    dim: usize,
    plus: &A,
    divide: &Q,
    normalize: &N,
) -> (r: Vec<Vec<Scalar>>)
    requires
        forall|i: int| 0 <= i < batch@.len() ==> (#[trigger] batch@[i])@.len() <= columns,
        batch@.len() * columns * dim <= hidden@.len(),
        forall|a: Scalar, b: Scalar| #[trigger] plus.requires((a, b)),
        forall|a: Scalar, n: usize| #[trigger] divide.requires((a, n)),
        forall|v: &Vec<Scalar>| #[trigger] normalize.requires((v,)),
    ensures
        r@.len() == batch@.len(),
        forall|i: int|
            0 <= i < r@.len() ==> is_pooled(
                hidden@,
                columns as int,
                dim as int,
                i,
                batch@[i]@,
                *plus,
                *divide,
                *normalize,
                #[trigger] r@[i],
            ),
{
    let mut result: Vec<Vec<Scalar>> = Vec::with_capacity(batch.len());
    let mut i: usize = 0;
    while i < batch.len()
        invariant
            i <= batch@.len(),
            forall|k: int| 0 <= k < batch@.len() ==> (#[trigger] batch@[k])@.len() <= columns,
            batch@.len() * columns * dim <= hidden@.len(),
            forall|a: Scalar, b: Scalar| #[trigger] plus.requires((a, b)),
            forall|a: Scalar, n: usize| #[trigger] divide.requires((a, n)),
            forall|v: &Vec<Scalar>| #[trigger] normalize.requires((v,)),
            result@.len() == i,
            forall|k: int|
                0 <= k < i ==> is_pooled(
                    hidden@,
                    columns as int,
                    dim as int,
                    k,
                    batch@[k]@,
                    *plus,
                    *divide,
                    *normalize,
                    #[trigger] result@[k],
                ),
        decreases batch@.len() - i,
    {
        let mean: Vec<Scalar> = pool_row(&batch[i], hidden, columns, dim, i, batch.len(), plus, divide);
        let one: Vec<Scalar> = normalize(&mean);
        let ghost m = &mean;
        assert(is_row_mean(hidden@, columns as int, dim as int, i as int, batch@[i as int]@, *plus, *divide, m@)
            && normalize.ensures((m,), one));
        result.push(one);
        i = i + 1;
    }
    result
}

/// The outcome `r` of embedding a batch of tokens: what `run` gave for the inputs, pooled, or
/// the error that it gave.
pub open spec fn is_outcome<
    F: FnOnce(&ModelInputs) -> Result<Vec<Scalar>, String>,
    A: Fn(Scalar, Scalar) -> Scalar,
    Q: Fn(Scalar, usize) -> Scalar,
    N: Fn(&Vec<Scalar>) -> Vec<Scalar>,
>(
    batch: Seq<Vec<Token>>,
    dim: usize,
    with_types: bool,
    run: F,
    plus: A,
    divide: Q,
    normalize: N,
    r: Result<Vec<Vec<Scalar>>, String>,
) -> bool {
    exists|inputs: &ModelInputs, given: Result<Vec<Scalar>, String>|
        #![trigger run.ensures((inputs,), given)]
        {
            &&& are_inputs(batch, with_types, *inputs)
            &&& run.ensures((inputs,), given)
            &&& match given {
                Ok(hidden) => r matches Ok(vectors) && vectors@.len() == batch.len() && forall|i: int|
                    0 <= i < vectors@.len() ==> is_pooled(
                        hidden@,
                        inputs.columns as int,
                        dim as int,
                        i,
                        batch[i]@,
                        plus,
                        divide,
                        normalize,
                        #[trigger] vectors@[i],
                    ),
                Err(m) => r matches Err(n) && n == m,
            }
        }
}

/// Embeds texts whose tokens are given. `run` runs the model; the other functions are those
/// of `mean_pool`.
pub fn embed_tokens<
    F: FnOnce(&ModelInputs) -> Result<Vec<Scalar>, String>,
    A: Fn(Scalar, Scalar) -> Scalar,
    Q: Fn(Scalar, usize) -> Scalar,
    N: Fn(&Vec<Scalar>) -> Vec<Scalar>,
>(
    batch: &Vec<Vec<Token>>,
    dim: usize,
    with_types: bool,
    run: F,
    plus: &A,
    divide: &Q,
    normalize: &N,
) -> (r: Result<Vec<Vec<Scalar>>, String>)
    requires
        forall|inputs: &ModelInputs| are_inputs(batch@, with_types, *inputs) ==> #[trigger] run.requires((inputs,)),
        forall|inputs: &ModelInputs, hidden: Vec<Scalar>|
            are_inputs(batch@, with_types, *inputs) && #[trigger] run.ensures((inputs,), Ok(hidden)) ==> inputs.rows
                * inputs.columns * dim <= hidden@.len(),
        forall|a: Scalar, b: Scalar| #[trigger] plus.requires((a, b)),
        forall|a: Scalar, n: usize| #[trigger] divide.requires((a, n)),
        forall|v: &Vec<Scalar>| #[trigger] normalize.requires((v,)),
    ensures
        is_outcome(batch@, dim, with_types, run, *plus, *divide, *normalize, r),
{
    let inputs: ModelInputs = pad_batch(batch, with_types);
    let given: Result<Vec<Scalar>, String> = run(&inputs);
    let ghost shown = &inputs;
    assert(run.ensures((shown,), given));
    proof {
        lemma_longest(batch@);
    }
    let ghost outcome = given;
    let r: Result<Vec<Vec<Scalar>>, String> = match given {
        Ok(hidden) => {
            assert(run.ensures((shown,), Ok(hidden)));
            Ok(mean_pool(batch, &hidden, inputs.columns, dim, plus, divide, normalize))
        },
        Err(m) => Err(m),
    };
    assert(run.ensures((shown,), outcome));
    r
}

/// The outcome `r` of embedding texts. It is decided by an outcome of turning these texts into
/// tokens: where that is an error, so is `r`; where each text gave a list of tokens, `r` is
/// the outcome of embedding them.
pub open spec fn embedded<
    F: FnOnce(&ModelInputs) -> Result<Vec<Scalar>, String>,
    A: Fn(Scalar, Scalar) -> Scalar,
    Q: Fn(Scalar, usize) -> Scalar,
    N: Fn(&Vec<Scalar>) -> Vec<Scalar>,
>(
    tokenizer: tokenizers::Tokenizer,
    dim: usize,
    with_types: bool,
    texts: Seq<Seq<char>>,
    run: F,
    plus: A,
    divide: Q,
    normalize: N,
    r: Result<Vec<Vec<Scalar>>, String>,
) -> bool {
    exists|encoded: Result<Vec<Vec<Token>>, String>|
        {
            &&& #[trigger] can_encode(tokenizer, texts, Some(tokens_of(encoded)))
            &&& match encoded {
                Ok(batch) => batch@.len() == texts.len() && is_outcome(
                    batch@,
                    dim,
                    with_types,
                    run,
                    plus,
                    divide,
                    normalize,
                    r,
                ),
                Err(m) => r matches Err(e) && e@ == "encode: "@ + m@,
            }
        }
}

/// The model may be run on `inputs`: they are those of tokens that these texts can give.
pub open spec fn may_run(
    tokenizer: tokenizers::Tokenizer,
    with_types: bool,
    texts: Seq<Seq<char>>,
    inputs: ModelInputs,
) -> bool {
    exists|batch: Vec<Vec<Token>>| #[trigger]
        can_encode(tokenizer, texts, Some(tokens_of(Ok(batch)))) && are_inputs(batch@, with_types, inputs)
}

/// Embeds texts that can be turned into tokens: does so and embeds these. The functions are
/// those of `embed_tokens`.
pub(crate) fn embed_encoded<
    F: FnOnce(&ModelInputs) -> Result<Vec<Scalar>, String>,
    A: Fn(Scalar, Scalar) -> Scalar,
    Q: Fn(Scalar, usize) -> Scalar,
    N: Fn(&Vec<Scalar>) -> Vec<Scalar>,
>(
    tokenizer: &tokenizers::Tokenizer,
    dim: usize,
    with_types: bool,
    texts: &[&str],
    run: F,
    plus: &A,
    divide: &Q,
    normalize: &N,
) -> (r: Result<Vec<Vec<Scalar>>, String>)
    requires
        is_encodable(*tokenizer, shown(texts@)),
        forall|inputs: &ModelInputs|
            may_run(*tokenizer, with_types, shown(texts@), *inputs) ==> #[trigger] run.requires((inputs,)),
        forall|inputs: &ModelInputs, hidden: Vec<Scalar>|
            may_run(*tokenizer, with_types, shown(texts@), *inputs) && #[trigger] run.ensures((inputs,), Ok(hidden))
                ==> inputs.rows * inputs.columns * dim <= hidden@.len(),
        forall|a: Scalar, b: Scalar| #[trigger] plus.requires((a, b)),
        forall|a: Scalar, n: usize| #[trigger] divide.requires((a, n)),
        forall|v: &Vec<Scalar>| #[trigger] normalize.requires((v,)),
    ensures
        embedded(
            *tokenizer,
            dim,
            with_types,
            shown(texts@),
            run,
            *plus,
            *divide,
            *normalize,
            r,
        ),
{
    let mut strings: Vec<String> = Vec::with_capacity(texts.len());
    let mut i: usize = 0;
    while i < texts.len()
        invariant
            i <= texts@.len(),
            strings@.len() == i,
            forall|k: int| 0 <= k < i ==> (#[trigger] strings@[k])@ == texts@[k]@,
        decreases texts@.len() - i,
    {
        strings.push(String::from_str(texts[i]));
        i = i + 1;
    }
    assert(texts_of(strings@) =~= shown(texts@));
    let encoded: Result<Vec<Vec<Token>>, String> = encode_batch(tokenizer, strings);
    assert(can_encode(*tokenizer, shown(texts@), Some(tokens_of(encoded))));
    match encoded {
        Ok(batch) => {
            assert(can_encode(*tokenizer, shown(texts@), Some(tokens_of(Ok(batch)))));
            embed_tokens(&batch, dim, with_types, run, plus, divide, normalize)
        },
        Err(m) => Err(String::from_str("encode: ").concat(m.as_str())),
    }
}

/// An embedding model: its tokenizer, the number of dimensions it gives, and whether it takes
/// the parts that tokens belong to.
pub struct OnnxEmbedder {
    tokenizer: tokenizers::Tokenizer,
    dim: usize,
    has_token_type_ids: bool,
}

impl OnnxEmbedder {
    /// What turns texts into tokens.
    pub closed spec fn tokenizer(&self) -> tokenizers::Tokenizer {
        self.tokenizer
    }

    /// The number of dimensions.
    pub closed spec fn dimension(&self) -> usize {
        self.dim
    }

    /// Whether the model takes the parts that tokens belong to.
    pub closed spec fn takes_types(&self) -> bool {
        self.has_token_type_ids
    }

    /// An embedder around a loaded tokenizer. `dim` is the number of dimensions of the model.
    pub fn new(tokenizer: tokenizers::Tokenizer, dim: usize, has_token_type_ids: bool) -> (r: OnnxEmbedder)
        ensures
            r.tokenizer() == tokenizer,
            r.dimension() == dim,
            r.takes_types() == has_token_type_ids,
    {
        OnnxEmbedder { tokenizer, dim, has_token_type_ids }
    }

    /// The number of dimensions.
    pub fn dim(&self) -> (r: usize)
        ensures
            r == self.dimension(),
    {
        self.dim
    }

    /// The vectors of several texts that can be turned into tokens, in order.
    ///
    /// The functions are those of `embed_tokens`.
    pub fn embed_texts<
        F: FnOnce(&ModelInputs) -> Result<Vec<Scalar>, String>,
        A: Fn(Scalar, Scalar) -> Scalar,
        Q: Fn(Scalar, usize) -> Scalar,
        N: Fn(&Vec<Scalar>) -> Vec<Scalar>,
    >(&self, texts: &[&str], run: F, plus: &A, divide: &Q, normalize: &N) -> (r: Result<Vec<Vec<Scalar>>, AgentMemoryError>)
        requires
            is_encodable(self.tokenizer(), shown(texts@)),
            forall|inputs: &ModelInputs|
                may_run(self.tokenizer(), self.takes_types(), shown(texts@), *inputs) ==> #[trigger] run.requires(
                    (inputs,),
                ),
            forall|inputs: &ModelInputs, hidden: Vec<Scalar>|
                may_run(self.tokenizer(), self.takes_types(), shown(texts@), *inputs) && #[trigger] run.ensures(
                    (inputs,),
                    Ok(hidden),
                ) ==> inputs.rows * inputs.columns * self.dimension() <= hidden@.len(),
            forall|a: Scalar, b: Scalar| #[trigger] plus.requires((a, b)),
            forall|a: Scalar, n: usize| #[trigger] divide.requires((a, n)),
            forall|v: &Vec<Scalar>| #[trigger] normalize.requires((v,)),
        ensures
            exists|all: Result<Vec<Vec<Scalar>>, String>| #[trigger]
                embedded(
                    self.tokenizer(),
                    self.dimension(),
                    self.takes_types(),
                    shown(texts@),
                    run,
                    *plus,
                    *divide,
                    *normalize,
                    all,
                ) && match all {
                    Ok(vectors) => r matches Ok(given) && given == vectors,
                    Err(m) => r matches Err(e) && e is Embedder && e->Embedder_0 == m,
                },
    {
        let all: Result<Vec<Vec<Scalar>>, String> = embed_encoded(
            &self.tokenizer,
            self.dim,
            self.has_token_type_ids,
            texts,
            run,
            plus,
            divide,
            normalize,
        );
        assert(embedded(
            self.tokenizer(),
            self.dimension(),
            self.takes_types(),
            shown(texts@),
            run,
            *plus,
            *divide,
            *normalize,
            all,
        ));
        match all {
            Ok(vectors) => Ok(vectors),
            Err(m) => Err(AgentMemoryError::Embedder(m)),
        }
    }

    /// The vectors of several texts, in order, where it is known that they can be turned into
    /// tokens: there are none, or the tokenizer is plain. Else nothing is done.
    pub fn embed_checked<
        F: FnOnce(&ModelInputs) -> Result<Vec<Scalar>, String>,
        A: Fn(Scalar, Scalar) -> Scalar,
        Q: Fn(Scalar, usize) -> Scalar,
        N: Fn(&Vec<Scalar>) -> Vec<Scalar>,
    >(&self, texts: &[&str], run: F, plus: &A, divide: &Q, normalize: &N) -> (r: Option<
        Result<Vec<Vec<Scalar>>, AgentMemoryError>,
    >)
        requires
            forall|inputs: &ModelInputs|
                may_run(self.tokenizer(), self.takes_types(), shown(texts@), *inputs) ==> #[trigger] run.requires(
                    (inputs,),
                ),
            forall|inputs: &ModelInputs, hidden: Vec<Scalar>|
                may_run(self.tokenizer(), self.takes_types(), shown(texts@), *inputs) && #[trigger] run.ensures(
                    (inputs,),
                    Ok(hidden),
                ) ==> inputs.rows * inputs.columns * self.dimension() <= hidden@.len(),
            forall|a: Scalar, b: Scalar| #[trigger] plus.requires((a, b)),
            forall|a: Scalar, n: usize| #[trigger] divide.requires((a, n)),
            forall|v: &Vec<Scalar>| #[trigger] normalize.requires((v,)),
        ensures
            r is Some <==> texts@.len() == 0 || is_plain(self.tokenizer(), shown(texts@)),
            r matches Some(done) ==> exists|all: Result<Vec<Vec<Scalar>>, String>| #[trigger]
                embedded(
                    self.tokenizer(),
                    self.dimension(),
                    self.takes_types(),
                    shown(texts@),
                    run,
                    *plus,
                    *divide,
                    *normalize,
                    all,
                ) && match all {
                    Ok(vectors) => done matches Ok(given) && given == vectors,
                    Err(m) => done matches Err(e) && e is Embedder && e->Embedder_0 == m,
                },
    {
        if texts.len() == 0 || is_plain_for(&self.tokenizer, texts) {
            Some(self.embed_texts(texts, run, plus, divide, normalize))
        } else {
            None
        }
    }

    /// The vector of one text that can be turned into tokens.
    pub fn embed<
        F: FnOnce(&ModelInputs) -> Result<Vec<Scalar>, String>,
        A: Fn(Scalar, Scalar) -> Scalar,
        Q: Fn(Scalar, usize) -> Scalar,
        N: Fn(&Vec<Scalar>) -> Vec<Scalar>,
    >(&self, text: &str, run: F, plus: &A, divide: &Q, normalize: &N) -> (r: Result<Vec<Scalar>, AgentMemoryError>)
        requires
            is_encodable(self.tokenizer(), seq![text@]),
            forall|inputs: &ModelInputs|
                may_run(self.tokenizer(), self.takes_types(), seq![text@], *inputs) ==> #[trigger] run.requires(
                    (inputs,),
                ),
            forall|inputs: &ModelInputs, hidden: Vec<Scalar>|
                may_run(self.tokenizer(), self.takes_types(), seq![text@], *inputs) && #[trigger] run.ensures(
                    (inputs,),
                    Ok(hidden),
                ) ==> inputs.rows * inputs.columns * self.dimension() <= hidden@.len(),
            forall|a: Scalar, b: Scalar| #[trigger] plus.requires((a, b)),
            forall|a: Scalar, n: usize| #[trigger] divide.requires((a, n)),
            forall|v: &Vec<Scalar>| #[trigger] normalize.requires((v,)),
        ensures
            exists|all: Result<Vec<Vec<Scalar>>, String>| #[trigger]
                embedded(
                    self.tokenizer(),
                    self.dimension(),
                    self.takes_types(),
                    seq![text@],
                    run,
                    *plus,
                    *divide,
                    *normalize,
                    all,
                ) && match all {
                    Ok(vectors) => r matches Ok(v) && vectors@ == seq![v],
                    Err(m) => r matches Err(e) && e is Embedder && e->Embedder_0 == m,
                },
    {
        let mut one: Vec<&str> = Vec::new();
        one.push(text);
        assert(shown(one@) =~= seq![text@]);
        match self.embed_texts(one.as_slice(), run, plus, divide, normalize) {
            Ok(vectors) => {
                let mut vectors = vectors;
                let ghost before = vectors@;
                let first: Vec<Scalar> = vectors.remove(0);
                assert(before =~= seq![first]);
                Ok(first)
            },
            Err(e) => Err(e),
        }
    }
}

/// The tokens that a vector is pooled over are exactly those that the model attends to: their
/// positions ascend, each position of a token with a mask above zero is among them, and no other.
pub proof fn law_attended(tokens: Seq<Token>)
    ensures
        forall|p: int|
            #![trigger attended(tokens).contains(p)]
            attended(tokens).contains(p) <==> 0 <= p < tokens.len() && tokens[p].mask > 0,
        forall|i: int, j: int|
            0 <= i < j < attended(tokens).len() ==> (#[trigger] attended(tokens)[i]) < (#[trigger] attended(tokens)[j]),
        attended(tokens).len() == tokens.filter(|t: Token| t.mask > 0).len(),
    decreases tokens.len(),
{
    reveal(Seq::filter);
    let all = attended(tokens);
    if tokens.len() > 0 {
        let rest = tokens.drop_last();
        law_attended(rest);
        lemma_attended_within(rest);
        let before = attended(rest);
        assert forall|p: int| #![trigger all.contains(p)] all.contains(p) <==> 0 <= p < tokens.len() && tokens[p].mask > 0 by {
            if all.contains(p) {
                let k = choose|k: int| 0 <= k < all.len() && all[k] == p;
                if k < before.len() {
                    assert(before[k] == p);
                    assert(before.contains(p));
                    assert(rest[p] == tokens[p]);
                }
            }
            if 0 <= p < tokens.len() && tokens[p].mask > 0 {
                if p < rest.len() {
                    assert(rest[p] == tokens[p]);
                    assert(before.contains(p));
                    let k = choose|k: int| 0 <= k < before.len() && before[k] == p;
                    assert(all[k] == p);
                } else {
                    assert(all[all.len() - 1] == p);
                }
            }
        }
        assert forall|i: int, j: int| 0 <= i < j < all.len() implies (#[trigger] all[i]) < (#[trigger] all[j]) by {
            assert(all[i] == before[i]);
            if j < before.len() {
                assert(all[j] == before[j]);
            }
        }
    }
}

/// The vector of a text is what `normalize` makes of the mean over the tokens that the model
/// attends to: in every dimension the hidden states of exactly these tokens, one after the other,
/// are added up from zero, and the sum is divided by their number. Where there is none the mean is
/// zero.
pub proof fn law_pooled<
    A: Fn(Scalar, Scalar) -> Scalar,
    Q: Fn(Scalar, usize) -> Scalar,
    N: Fn(&Vec<Scalar>) -> Vec<Scalar>,
>(
    hidden: Seq<Scalar>,
    columns: int,
    dim: int,
    row: int,
    tokens: Seq<Token>,
    plus: A,
    divide: Q,
    normalize: N,
    r: Vec<Scalar>,
)
    requires
        tokens.len() <= usize::MAX,
        0 <= dim,
        is_pooled(hidden, columns, dim, row, tokens, plus, divide, normalize, r),
    ensures
        exists|mean: &Vec<Scalar>|
            {
                &&& #[trigger] normalize.ensures((mean,), r)
                &&& mean@.len() == dim
                &&& forall|d: int|
                    0 <= d < dim ==> mean_of_attended(hidden, columns, dim, row, tokens, d, plus, divide, #[trigger] mean@[d])
            },
{
    law_attended(tokens);
    let mean = choose|mean: &Vec<Scalar>|
        is_row_mean(hidden, columns, dim, row, tokens, plus, divide, mean@) && #[trigger] normalize.ensures((mean,), r);
    assert forall|d: int| 0 <= d < dim implies mean_of_attended(
        hidden,
        columns,
        dim,
        row,
        tokens,
        d,
        plus,
        divide,
        #[trigger] mean@[d],
    ) by {
        let positions = attended(tokens);
        assert(is_mean_at(hidden, columns, dim, row, positions, d, plus, divide, mean@[d]));
        let sum = choose|sum: Scalar|
            {
                &&& #[trigger] is_row_sum(hidden, columns, dim, row, positions, d, plus, sum)
                &&& if positions.len() > 0 {
                    divide.ensures((sum, positions.len() as usize), mean@[d])
                } else {
                    mean@[d] == sum
                }
            };
        let sums = choose|sums: Seq<Scalar>| #[trigger]
            is_row_fold(hidden, columns, dim, row, positions, d, plus, sums) && sums.last() == sum;
        assert forall|k: int| 0 <= k < positions.len() implies plus.ensures(
            (sums[k], hidden[(row * columns + (#[trigger] positions[k])) * dim + d]),
            sums[k + 1],
        ) by {
            assert(hidden_at(hidden, columns, dim, row, positions[k], d) == hidden[(row * columns + positions[k]) * dim
                + d]);
        }
        assert(ascending(positions) && sums.len() == positions.len() + 1);
    }
}

/// The numbers ascend.
pub open spec fn ascending(positions: Seq<int>) -> bool {
    forall|i: int, j: int| 0 <= i < j < positions.len() ==> (#[trigger] positions[i]) < (#[trigger] positions[j])
}

/// `value` is the mean of dimension `d` over the tokens with a mask above zero.
pub open spec fn mean_of_attended<A: Fn(Scalar, Scalar) -> Scalar, Q: Fn(Scalar, usize) -> Scalar>(
    hidden: Seq<Scalar>,
    columns: int,
    dim: int,
    row: int,
    tokens: Seq<Token>,
    d: int,
    plus: A,
    divide: Q,
    value: Scalar,
) -> bool {
    exists|positions: Seq<int>, sums: Seq<Scalar>|
        {
            &&& #[trigger] ascending(positions)
            &&& forall|p: int|
                #![trigger positions.contains(p)]
                positions.contains(p) <==> 0 <= p < tokens.len() && tokens[p].mask > 0
            &&& #[trigger] sums.len() == positions.len() + 1
            &&& sums[0] == (Scalar { bits: 0 })
            &&& forall|k: int|
                0 <= k < positions.len() ==> plus.ensures(
                    (sums[k], hidden[(row * columns + (#[trigger] positions[k])) * dim + d]),
                    sums[k + 1],
                )
            &&& positions.len() == 0 ==> value == (Scalar { bits: 0 })
            &&& positions.len() > 0 ==> divide.ensures((sums[sums.len() - 1], positions.len() as usize), value)
        }
}

/// What the model is given: a row for each text, as wide as the longest, with the number, the
/// mask and, where asked for, the part of every token in its place, and zeros behind the last.
pub proof fn law_inputs(batch: Seq<Vec<Token>>, with_types: bool, r: ModelInputs)
    requires
        are_inputs(batch, with_types, r),
    ensures
        r.rows == batch.len(),
        forall|i: int| 0 <= i < batch.len() ==> (#[trigger] batch[i])@.len() <= r.columns,
        batch.len() > 0 ==> exists|i: int| 0 <= i < batch.len() && (#[trigger] batch[i])@.len() == r.columns,
        batch.len() == 0 ==> r.columns == 0,
        r.input_ids@.len() == r.rows * r.columns,
        r.attention_mask@.len() == r.rows * r.columns,
        r.token_type_ids is Some <==> with_types,
        r.token_type_ids matches Some(types) ==> types@.len() == r.rows * r.columns,
        forall|i: int, j: int|
            #![trigger batch[i]@[j]]
            0 <= i < batch.len() && 0 <= j < batch[i]@.len() ==> {
                &&& r.input_ids@[i * r.columns + j] == batch[i]@[j].id
                &&& r.attention_mask@[i * r.columns + j] == batch[i]@[j].mask
                &&& r.token_type_ids matches Some(types) ==> types@[i * r.columns + j] == batch[i]@[j].type_id
            },
        forall|i: int, j: int|
            #![trigger r.input_ids@[i * r.columns + j]]
            0 <= i < batch.len() && batch[i]@.len() <= j < r.columns ==> {
                &&& r.input_ids@[i * r.columns + j] == 0
                &&& r.attention_mask@[i * r.columns + j] == 0
                &&& r.token_type_ids matches Some(types) ==> types@[i * r.columns + j] == 0
            },
{
    lemma_longest(batch);
    lemma_longest_is_one(batch);
    assert forall|i: int, j: int|
        #![trigger batch[i]@[j]]
        0 <= i < batch.len() && 0 <= j < batch[i]@.len() implies {
        &&& r.input_ids@[i * r.columns + j] == batch[i]@[j].id
        &&& r.attention_mask@[i * r.columns + j] == batch[i]@[j].mask
        &&& r.token_type_ids matches Some(types) ==> types@[i * r.columns + j] == batch[i]@[j].type_id
    } by {
        let (x, y) = (r.input_ids@[i * r.columns + j], r.attention_mask@[i * r.columns + j]);
    }
    assert forall|i: int, j: int|
        #![trigger r.input_ids@[i * r.columns + j]]
        0 <= i < batch.len() && batch[i]@.len() <= j < r.columns implies {
        &&& r.input_ids@[i * r.columns + j] == 0
        &&& r.attention_mask@[i * r.columns + j] == 0
        &&& r.token_type_ids matches Some(types) ==> types@[i * r.columns + j] == 0
    } by {
        let y = r.attention_mask@[i * r.columns + j];
    }
}

proof fn lemma_longest_is_one(batch: Seq<Vec<Token>>)
    ensures
        batch.len() > 0 ==> exists|i: int| 0 <= i < batch.len() && (#[trigger] batch[i])@.len() == longest(batch),
    decreases batch.len(),
{
    if batch.len() > 0 {
        let rest = batch.drop_last();
        lemma_longest_is_one(rest);
        assert(rest.len() == 0 ==> longest(rest) == 0);
        if batch.last()@.len() == longest(batch) || rest.len() == 0 {
            assert(batch[batch.len() - 1]@.len() == longest(batch));
        } else {
            let i = choose|i: int| 0 <= i < rest.len() && (#[trigger] rest[i])@.len() == longest(rest);
            assert(batch[i]@.len() == longest(batch));
        }
    }
}

/// The states of a text follow from its digest: the first from the four words of the digest
/// combined, or a fixed one where these cancel out, and each further one from the one before. There
/// are as many as dimensions.
pub proof fn law_states_follow(text: Seq<char>, dim: nat)
    ensures
        text_states(text, dim).len() == dim,
        dim > 0 ==> text_states(text, dim)[0] == next_state(seed_of(sha256(encode_utf8(text)))),
        forall|i: int, j: int|
            0 <= i && j == i + 1 && j < dim ==> (#[trigger] text_states(text, dim)[j]) == next_state(
                #[trigger] text_states(text, dim)[i],
            ),
        forall|s: u64|
            #![trigger next_state(s)]
            {
                let a = s ^ (s << 13u64);
                let b = a ^ (a >> 7u64);
                next_state(s) == b ^ (b << 17u64)
            },
        ({
            let d = sha256(encode_utf8(text));
            let folded = (number(d.subrange(0, 8)) as u64) ^ (number(d.subrange(8, 16)) as u64) ^ (number(
                d.subrange(16, 24),
            ) as u64) ^ (number(d.subrange(24, 32)) as u64);
            seed_of(d) == (if folded == 0 {
                0xdead_beefu64
            } else {
                folded
            })
        }),
{
    let seed = seed_of(sha256(encode_utf8(text)));
    let all = text_states(text, dim);
    if dim > 0 {
        assert(state_after(seed, 0) == seed);
        assert(all[0] == next_state(state_after(seed, 0)));
    }
    assert forall|i: int, j: int| 0 <= i && j == i + 1 && j < dim implies (#[trigger] all[j]) == next_state(
        #[trigger] all[i],
    ) by {
        assert(all[i] == state_after(seed, j as nat));
        assert(all[j] == next_state(state_after(seed, j as nat)));
    }
}

/// `r` is what `normalize` makes of the mean of a text's hidden states: in every dimension that
/// over the tokens with a mask above zero.
pub open spec fn is_normalized_mean<
    A: Fn(Scalar, Scalar) -> Scalar,
    Q: Fn(Scalar, usize) -> Scalar,
    N: Fn(&Vec<Scalar>) -> Vec<Scalar>,
>(
    hidden: Seq<Scalar>,
    columns: int,
    dim: int,
    row: int,
    tokens: Seq<Token>,
    plus: A,
    divide: Q,
    normalize: N,
    r: Vec<Scalar>,
) -> bool {
    exists|mean: &Vec<Scalar>|
        {
            &&& #[trigger] normalize.ensures((mean,), r)
            &&& mean@.len() == dim
            &&& forall|d: int|
                0 <= d < dim ==> mean_of_attended(hidden, columns, dim, row, tokens, d, plus, divide, #[trigger] mean@[d])
        }
}

/// Embedding a batch runs the model once. Where that fails, so does it, with the same error. Else
/// every text has a vector, which is pooled from the text's own row over its own tokens.
pub proof fn law_batch_is_embedded<
    F: FnOnce(&ModelInputs) -> Result<Vec<Scalar>, String>,
    A: Fn(Scalar, Scalar) -> Scalar,
    Q: Fn(Scalar, usize) -> Scalar,
    N: Fn(&Vec<Scalar>) -> Vec<Scalar>,
>(
    batch: Seq<Vec<Token>>,
    dim: usize,
    with_types: bool,
    run: F,
    plus: A,
    divide: Q,
    normalize: N,
    r: Result<Vec<Vec<Scalar>>, String>,
)
    requires
        forall|i: int| 0 <= i < batch.len() ==> (#[trigger] batch[i])@.len() <= usize::MAX,
        is_outcome(batch, dim, with_types, run, plus, divide, normalize, r),
    ensures
        exists|inputs: &ModelInputs, given: Result<Vec<Scalar>, String>|
            #![trigger run.ensures((inputs,), given)]
            {
                &&& run.ensures((inputs,), given)
                &&& inputs.rows == batch.len()
                &&& forall|i: int, j: int|
                    #![trigger batch[i]@[j]]
                    0 <= i < batch.len() && 0 <= j < batch[i]@.len() ==> inputs.input_ids@[i * inputs.columns + j]
                        == batch[i]@[j].id && inputs.attention_mask@[i * inputs.columns + j] == batch[i]@[j].mask
                &&& given matches Err(m) ==> r == Err::<Vec<Vec<Scalar>>, String>(m)
                &&& given matches Ok(hidden) ==> r is Ok && r->Ok_0@.len() == batch.len() && forall|i: int|
                    0 <= i < batch.len() ==> is_normalized_mean(
                        hidden@,
                        inputs.columns as int,
                        dim as int,
                        i,
                        batch[i]@,
                        plus,
                        divide,
                        normalize,
                        #[trigger] r->Ok_0@[i],
                    )
            },
{
    let (inputs, given) = choose|inputs: &ModelInputs, given: Result<Vec<Scalar>, String>|
        #![trigger run.ensures((inputs,), given)]
        {
            &&& are_inputs(batch, with_types, *inputs)
            &&& run.ensures((inputs,), given)
            &&& match given {
                Ok(hidden) => r matches Ok(vectors) && vectors@.len() == batch.len() && forall|i: int|
                    0 <= i < vectors@.len() ==> is_pooled(
                        hidden@,
                        inputs.columns as int,
                        dim as int,
                        i,
                        batch[i]@,
                        plus,
                        divide,
                        normalize,
                        #[trigger] vectors@[i],
                    ),
                Err(m) => r matches Err(n) && n == m,
            }
        };
    law_inputs(batch, with_types, *inputs);
    if let Ok(hidden) = given {
        let vectors = r->Ok_0@;
        assert forall|i: int| 0 <= i < batch.len() implies is_normalized_mean(
            hidden@,
            inputs.columns as int,
            dim as int,
            i,
            batch[i]@,
            plus,
            divide,
            normalize,
            #[trigger] vectors[i],
        ) by {
            assert(batch[i]@.len() <= usize::MAX);
            assert(is_pooled(
                hidden@,
                inputs.columns as int,
                dim as int,
                i,
                batch[i]@,
                plus,
                divide,
                normalize,
                vectors[i],
            ));
            law_pooled(
                hidden@,
                inputs.columns as int,
                dim as int,
                i,
                batch[i]@,
                plus,
                divide,
                normalize,
                vectors[i],
            );
        }
    }
    assert(run.ensures((inputs,), given));
}

/// The vector of a text is what `normalize` makes of one value for each dimension, and that value
/// is what `value` gives for the state of this dimension.
pub proof fn law_mock_vector<V: Fn(u64) -> Scalar, N: Fn(&Vec<Scalar>) -> Vec<Scalar>>(
    embedder: MockEmbedder,
    text: Seq<char>,
    value: V,
    normalize: N,
    r: Vec<Scalar>,
)
    requires
        embedder.embedded(text, value, normalize, r),
    ensures
        exists|values: &Vec<Scalar>, states: Seq<u64>|
            {
                &&& #[trigger] normalize.ensures((values,), r)
                &&& values@.len() == embedder.dimension()
                &&& #[trigger] states.len() == embedder.dimension()
                &&& states.len() > 0 ==> states[0] == next_state(seed_of(sha256(encode_utf8(text))))
                &&& forall|i: int, j: int|
                    0 <= i && j == i + 1 && j < states.len() ==> (#[trigger] states[j]) == next_state(
                        #[trigger] states[i],
                    )
                &&& forall|i: int| 0 <= i < values@.len() ==> value.ensures((states[i],), #[trigger] values@[i])
            },
{
    law_states_follow(text, embedder.dimension() as nat);
    let states = text_states(text, embedder.dimension() as nat);
    let values = choose|values: &Vec<Scalar>|
        {
            &&& values@.len() == embedder.dimension()
            &&& forall|i: int| 0 <= i < values@.len() ==> value.ensures((states[i],), #[trigger] values@[i])
            &&& #[trigger] normalize.ensures((values,), r)
        };
    assert(normalize.ensures((values,), r));
    assert(states.len() == embedder.dimension());
}

} // verus!
