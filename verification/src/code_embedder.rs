//! Embedding of source code.
use crate::embedder::{embed_encoded, embedded, may_run, ModelInputs};
use crate::error::EmbedderError;
use crate::scalar::Scalar;
use crate::tokenizing::{is_encodable, is_plain, is_plain_for, shown};
use vstd::prelude::*;

verus! {

/// The number of dimensions of the model for source code.
pub const CODE_DIM: usize = 768;

/// An embedding model: its tokenizer, the number of dimensions it gives, and whether it takes
/// the parts that tokens belong to.
pub struct OnnxEmbedder {
    tokenizer: tokenizers::Tokenizer,
    dim: usize,
    has_token_type_ids: bool,
}

impl OnnxEmbedder {
    /// What turns texts into tokens.
    pub closed spec fn tokenizer(&self) -> tokenizers::Tokenizer {
        self.tokenizer
    }

    /// The number of dimensions.
    pub closed spec fn dimension(&self) -> usize {
        self.dim
    }

    /// Whether the model takes the parts that tokens belong to.
    pub closed spec fn takes_types(&self) -> bool {
        self.has_token_type_ids
    }

    /// An embedder around a loaded tokenizer.
    pub fn new(tokenizer: tokenizers::Tokenizer, has_token_type_ids: bool) -> (r: OnnxEmbedder)
        ensures
            r.tokenizer() == tokenizer,
            r.dimension() == CODE_DIM,
            r.dimension() == 768,
            r.takes_types() == has_token_type_ids,
    {
        OnnxEmbedder { tokenizer, dim: CODE_DIM, has_token_type_ids }
    }

    /// The number of dimensions.
    pub fn dim(&self) -> (r: usize)
        ensures
            r == self.dimension(),
    {
        self.dim
    }

    /// The vectors of several texts that can be turned into tokens, in order.
    ///
    /// The functions are those of `embed_tokens`.
    pub fn embed_batch<
        F: FnOnce(&ModelInputs) -> Result<Vec<Scalar>, String>,
        A: Fn(Scalar, Scalar) -> Scalar,
        Q: Fn(Scalar, usize) -> Scalar,
        N: Fn(&Vec<Scalar>) -> Vec<Scalar>,
    >(&self, texts: &[&str], run: F, plus: &A, divide: &Q, normalize: &N) -> (r: Result<Vec<Vec<Scalar>>, EmbedderError>)
        requires
            is_encodable(self.tokenizer(), shown(texts@)),
            forall|inputs: &ModelInputs|
                may_run(self.tokenizer(), self.takes_types(), shown(texts@), *inputs) ==> #[trigger] run.requires(
                    (inputs,),
                ),
            forall|inputs: &ModelInputs, hidden: Vec<Scalar>|
                may_run(self.tokenizer(), self.takes_types(), shown(texts@), *inputs) && #[trigger] run.ensures(
                    (inputs,),
                    Ok(hidden),
                ) ==> inputs.rows * inputs.columns * self.dimension() <= hidden@.len(),
            forall|a: Scalar, b: Scalar| #[trigger] plus.requires((a, b)),
            forall|a: Scalar, n: usize| #[trigger] divide.requires((a, n)),
            forall|v: &Vec<Scalar>| #[trigger] normalize.requires((v,)),
        ensures
            exists|all: Result<Vec<Vec<Scalar>>, String>| #[trigger]
                embedded(
                    self.tokenizer(),
                    self.dimension(),
                    self.takes_types(),
                    shown(texts@),
                    run,
                    *plus,
                    *divide,
                    *normalize,
                    all,
                ) && match all {
                    Ok(vectors) => r matches Ok(given) && given == vectors,
                    Err(m) => r matches Err(e) && e is Embedder && e->Embedder_0 == m,
                },
    {
        let all: Result<Vec<Vec<Scalar>>, String> = embed_encoded(
            &self.tokenizer,
            self.dim,
            self.has_token_type_ids,
            texts,
            run,
            plus,
            divide,
            normalize,
        );
        assert(embedded(
            self.tokenizer(),
            self.dimension(),
            self.takes_types(),
            shown(texts@),
            run,
            *plus,
            *divide,
            *normalize,
            all,
        ));
        match all {
            Ok(vectors) => Ok(vectors),
            Err(m) => Err(EmbedderError::Embedder(m)),
        }
    }

    /// The vectors of several texts, in order, where it is known that they can be turned into
    /// tokens: there are none, or the tokenizer is plain. Else nothing is done.
    pub fn embed_checked<
        F: FnOnce(&ModelInputs) -> Result<Vec<Scalar>, String>,
        A: Fn(Scalar, Scalar) -> Scalar,
        Q: Fn(Scalar, usize) -> Scalar,
        N: Fn(&Vec<Scalar>) -> Vec<Scalar>,
    >(&self, texts: &[&str], run: F, plus: &A, divide: &Q, normalize: &N) -> (r: Option<
        Result<Vec<Vec<Scalar>>, EmbedderError>,
    >)
        requires
            forall|inputs: &ModelInputs|
                may_run(self.tokenizer(), self.takes_types(), shown(texts@), *inputs) ==> #[trigger] run.requires(
                    (inputs,),
                ),
            forall|inputs: &ModelInputs, hidden: Vec<Scalar>|
                may_run(self.tokenizer(), self.takes_types(), shown(texts@), *inputs) && #[trigger] run.ensures(
                    (inputs,),
                    Ok(hidden),
                ) ==> inputs.rows * inputs.columns * self.dimension() <= hidden@.len(),
            forall|a: Scalar, b: Scalar| #[trigger] plus.requires((a, b)),
            forall|a: Scalar, n: usize| #[trigger] divide.requires((a, n)),
            forall|v: &Vec<Scalar>| #[trigger] normalize.requires((v,)),
        ensures
            r is Some <==> texts@.len() == 0 || is_plain(self.tokenizer(), shown(texts@)),
            r matches Some(done) ==> exists|all: Result<Vec<Vec<Scalar>>, String>| #[trigger]
                embedded(
                    self.tokenizer(),
                    self.dimension(),
                    self.takes_types(),
                    shown(texts@),
                    run,
                    *plus,
                    *divide,
                    *normalize,
                    all,
                ) && match all {
                    Ok(vectors) => done matches Ok(given) && given == vectors,
                    Err(m) => done matches Err(e) && e is Embedder && e->Embedder_0 == m,
                },
    {
        if texts.len() == 0 || is_plain_for(&self.tokenizer, texts) {
            Some(self.embed_batch(texts, run, plus, divide, normalize))
        } else {
            None
        }
    }

    /// The vector of one text that can be turned into tokens.
    pub fn embed<
        F: FnOnce(&ModelInputs) -> Result<Vec<Scalar>, String>,
        A: Fn(Scalar, Scalar) -> Scalar,
        Q: Fn(Scalar, usize) -> Scalar,
        N: Fn(&Vec<Scalar>) -> Vec<Scalar>,
    >(&self, text: &str, run: F, plus: &A, divide: &Q, normalize: &N) -> (r: Result<Vec<Scalar>, EmbedderError>)
        requires
            is_encodable(self.tokenizer(), seq![text@]),
            forall|inputs: &ModelInputs|
                may_run(self.tokenizer(), self.takes_types(), seq![text@], *inputs) ==> #[trigger] run.requires(
                    (inputs,),
                ),
            forall|inputs: &ModelInputs, hidden: Vec<Scalar>|
                may_run(self.tokenizer(), self.takes_types(), seq![text@], *inputs) && #[trigger] run.ensures(
                    (inputs,),
                    Ok(hidden),
                ) ==> inputs.rows * inputs.columns * self.dimension() <= hidden@.len(),
            forall|a: Scalar, b: Scalar| #[trigger] plus.requires((a, b)),
            forall|a: Scalar, n: usize| #[trigger] divide.requires((a, n)),
            forall|v: &Vec<Scalar>| #[trigger] normalize.requires((v,)),
        ensures
            exists|all: Result<Vec<Vec<Scalar>>, String>| #[trigger]
                embedded(
                    self.tokenizer(),
                    self.dimension(),
                    self.takes_types(),
                    seq![text@],
                    run,
                    *plus,
                    *divide,
                    *normalize,
                    all,
                ) && match all {
                    Ok(vectors) => r matches Ok(v) && vectors@ == seq![v],
                    Err(m) => r matches Err(e) && e is Embedder && e->Embedder_0 == m,
                },
    {
        let mut one: Vec<&str> = Vec::new();
        one.push(text);
        assert(shown(one@) =~= seq![text@]);
        match self.embed_batch(one.as_slice(), run, plus, divide, normalize) {
            Ok(vectors) => {
                let mut vectors = vectors;
                let ghost before = vectors@;
                let first: Vec<Scalar> = vectors.remove(0);
                assert(before =~= seq![first]);
                Ok(first)
            },
            Err(e) => Err(e),
        }
    }
}

} // verus!
