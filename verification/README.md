# TurboQuant

Compressed vectors, a vector index, and the memory of an agent on top of it, in
Verus.

A vector is compressed in three steps: a random rotation, a quantizer
(Lloyd-Max cells, or polar levels), and one sign per dimension of a projection of
what the quantizer lost. At 384 dimensions and four bits a vector takes 248 bytes.

## Layout

| part                       | what it holds                                                    |
|----------------------------|------------------------------------------------------------------|
| `src/compression/`         | bit packing, quantizers, codebooks, sign vectors, Hamming search |
| `src/turboquant.rs`        | the compressors                                                  |
| `src/storage.rs`, `src/meta.rs`, `src/index.rs`, `src/index_laws.rs` | the index, the contents of its two files, and what holds over several calls |
| `src/search.rs`            | two-stage search                                                 |
| `src/ranker.rs`, `src/budget.rs` | ranking, and selection within a token budget               |
| `src/session.rs`, `src/persistent.rs`, `src/synchronization.rs`, `src/recall_laws.rs` | the memories of a session and of a project |
| `src/tokenizing.rs`, `src/embedder.rs`, `src/code_embedder.rs` | texts to tokens to vectors |
| `src/server.rs`            | what the memory server is asked and answers                      |
| `app/`                     | the server itself: files, models, protocol, float arithmetic     |

`src/` is verified. Each function has a contract; properties that span several
functions stand as `law_` proof functions beside them.

## Numbers

A 32-bit float is held as its bit pattern. The library decides by the order of
such numbers, and takes arithmetic on them as functions of the caller, over which
the contracts are stated. `app/floats.rs` supplies them.

## Files

Functions that concern files take and give their contents. `app/` reads and
writes them.
