//! Errors, and how they read.
use crate::text::{decimal, decimal_text, holds};
use vstd::prelude::*;

verus! {

/// What can go wrong with an index and its storage.
#[derive(Debug)]
pub enum TurboError {
    /// A vector or a record has not the size it should have.
    DimensionMismatch { expected: usize, got: usize },
    /// No vector has the identifier.
    NotFound(u64),
    /// Reading or writing failed.
    Io(String),
    /// What was read is not what was written.
    Storage(String),
}

impl TurboError {
    /// How the error reads.
    pub open spec fn text(&self) -> Seq<char> {
        match *self {
            TurboError::DimensionMismatch { expected, got } => "dimension mismatch: expected "@ + decimal(
                expected as nat,
            ) + ", got "@ + decimal(got as nat),
            TurboError::NotFound(id) => "index not found: "@ + decimal(id as nat),
            TurboError::Io(m) => "IO error: "@ + m@,
            TurboError::Storage(m) => "storage error: "@ + m@,
        }
    }

    /// How the error reads.
    pub fn message(&self) -> (r: String)
        ensures
            r@ == self.text(),
    {
        match self {
            TurboError::DimensionMismatch { expected, got } => {
                let mut m: String = String::from_str("dimension mismatch: expected ");
                m.append(decimal_text(*expected as u64).as_str());
                m.append(", got ");
                m.append(decimal_text(*got as u64).as_str());
                m
            },
            TurboError::NotFound(id) => String::from_str("index not found: ").concat(decimal_text(*id).as_str()),
            TurboError::Io(m) => String::from_str("IO error: ").concat(m.as_str()),
            TurboError::Storage(m) => String::from_str("storage error: ").concat(m.as_str()),
        }
    }
}

/// What can go wrong with a memory.
#[derive(Debug)]
pub enum AgentMemoryError {
    /// The index failed.
    Turbo(TurboError),
    /// Reading or writing failed.
    Io(String),
    /// The embedding model failed.
    Embedder(String),
    /// What was read could not be understood, or could not be written down.
    Serialization(String),
    /// Something asked for is not there.
    NotFound(String),
}

impl AgentMemoryError {
    /// How the error reads.
    pub open spec fn text(&self) -> Seq<char> {
        match *self {
            AgentMemoryError::Turbo(e) => "turboquant error: "@ + e.text(),
            AgentMemoryError::Io(m) => "IO error: "@ + m@,
            AgentMemoryError::Embedder(m) => "embedder error: "@ + m@,
            AgentMemoryError::Serialization(m) => "serialization error: "@ + m@,
            AgentMemoryError::NotFound(m) => "not found: "@ + m@,
        }
    }

    /// How the error reads.
    pub fn message(&self) -> (r: String)
        ensures
            r@ == self.text(),
    {
        match self {
            AgentMemoryError::Turbo(e) => String::from_str("turboquant error: ").concat(e.message().as_str()),
            AgentMemoryError::Io(m) => String::from_str("IO error: ").concat(m.as_str()),
            AgentMemoryError::Embedder(m) => String::from_str("embedder error: ").concat(m.as_str()),
            AgentMemoryError::Serialization(m) => String::from_str("serialization error: ").concat(m.as_str()),
            AgentMemoryError::NotFound(m) => String::from_str("not found: ").concat(m.as_str()),
        }
    }
}

/// What can go wrong with an embedding model.
#[derive(Debug)]
pub enum EmbedderError {
    /// Reading or writing failed.
    Io(String),
    /// The model failed.
    Embedder(String),
}

impl EmbedderError {
    /// How the error reads.
    pub open spec fn text(&self) -> Seq<char> {
        match *self {
            EmbedderError::Io(m) => "IO error: "@ + m@,
            EmbedderError::Embedder(m) => "embedder error: "@ + m@,
        }
    }

    /// How the error reads.
    pub fn message(&self) -> (r: String)
        ensures
            r@ == self.text(),
    {
        match self {
            EmbedderError::Io(m) => String::from_str("IO error: ").concat(m.as_str()),
            EmbedderError::Embedder(m) => String::from_str("embedder error: ").concat(m.as_str()),
        }
    }
}

/// Every error names what it is about.
pub proof fn law_error_texts(e: TurboError, f: AgentMemoryError, g: EmbedderError)
    ensures
        e matches TurboError::DimensionMismatch { expected, got } ==> holds(e.text(), decimal(expected as nat)) && holds(
            e.text(),
            decimal(got as nat),
        ),
        e matches TurboError::NotFound(id) ==> holds(e.text(), decimal(id as nat)),
        e matches TurboError::Io(m) ==> holds(e.text(), m@),
        e matches TurboError::Storage(m) ==> holds(e.text(), m@),
        f matches AgentMemoryError::Turbo(inner) ==> holds(f.text(), inner.text()),
        f matches AgentMemoryError::Io(m) ==> holds(f.text(), m@),
        f matches AgentMemoryError::Embedder(m) ==> holds(f.text(), m@),
        f matches AgentMemoryError::Serialization(m) ==> holds(f.text(), m@),
        f matches AgentMemoryError::NotFound(m) ==> holds(f.text(), m@),
        g matches EmbedderError::Io(m) ==> holds(g.text(), m@),
        g matches EmbedderError::Embedder(m) ==> holds(g.text(), m@),
{
    let none: Seq<char> = Seq::empty();
    match e {
        TurboError::DimensionMismatch { expected, got } => {
            let (x, y) = (decimal(expected as nat), decimal(got as nat));
            assert(e.text() =~= "dimension mismatch: expected "@ + x + (", got "@ + y));
            assert(e.text() =~= ("dimension mismatch: expected "@ + x + ", got "@) + y + none);
        },
        TurboError::NotFound(id) => {
            assert(e.text() =~= "index not found: "@ + decimal(id as nat) + none);
        },
        TurboError::Io(m) => {
            assert(e.text() =~= "IO error: "@ + m@ + none);
        },
        TurboError::Storage(m) => {
            assert(e.text() =~= "storage error: "@ + m@ + none);
        },
    }
    match f {
        AgentMemoryError::Turbo(inner) => {
            assert(f.text() =~= "turboquant error: "@ + inner.text() + none);
        },
        AgentMemoryError::Io(m) => {
            assert(f.text() =~= "IO error: "@ + m@ + none);
        },
        AgentMemoryError::Embedder(m) => {
            assert(f.text() =~= "embedder error: "@ + m@ + none);
        },
        AgentMemoryError::Serialization(m) => {
            assert(f.text() =~= "serialization error: "@ + m@ + none);
        },
        AgentMemoryError::NotFound(m) => {
            assert(f.text() =~= "not found: "@ + m@ + none);
        },
    }
    match g {
        EmbedderError::Io(m) => {
            assert(g.text() =~= "IO error: "@ + m@ + none);
        },
        EmbedderError::Embedder(m) => {
            assert(g.text() =~= "embedder error: "@ + m@ + none);
        },
    }
}

} // verus!
