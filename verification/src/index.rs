//! A vector index: insert, delete, search, compact.
//!
//! Vectors are stored compressed. A search scores every vector that is not
//! deleted against the query and gives the best ones. The functions here work
//! on the contents of the index's two files, the storage and the metadata, and
//! say what is to be written to them.
use crate::bytes::le;
use crate::compression::bitstream::{field_is, fits, lemma_fits_iff_below, packed_len};
use crate::compression::lloyd_max::{LloydMaxQuantizer, ScalarQuantVector};
use crate::error::TurboError;
use crate::meta::{decoding_failure, encoded_meta, law_meta_unique, IndexMeta, MetaFields, META_VERSION};
use crate::scalar::{lemma_descending_key, Scalar};
use crate::sorting::{is_leading, leading, precedes};
use crate::storage::{
    appends, law_append_extends, law_open_gives_back, law_record_determines, lemma_preamble_len, lemma_record_len,
    magic_bytes, record, record_size, Appended, StoredVector, VectorStorage,
};
use crate::turboquant::{LloydMaxCompressor, LloydMaxVector, PreparedQuery};
use std::collections::HashSet;
use vstd::prelude::*;

verus! {

broadcast use vstd::std_specs::hash::group_hash_axioms;

/// The width of an index where none is asked for.
pub const DEFAULT_BITS: u8 = 4;

/// A vector found by a search, and its similarity to the query.
#[derive(Clone, Copy, Debug)]
pub struct SearchResult {
    pub id: u64,
    pub score: Scalar,
}

/// What an insert has to write.
pub struct Inserted {
    /// The writes to the storage file.
    pub append: Appended,
    /// The new contents of the metadata file.
    pub meta: Vec<u8>,
}

/// The new contents of both files.
pub struct IndexFiles {
    pub storage: Vec<u8>,
    pub meta: Vec<u8>,
}

/// An index of compressed vectors.
pub struct TurboIndex {
    compressor: LloydMaxCompressor,
    storage: VectorStorage,
    ids: Vec<u64>,
    deleted: HashSet<u64>,
    next_id: u64,
    dim: usize,
    rotation_seed: u64,
    qjl_seed: u64,
    bits: u8,
}

/// The positions of the identifiers that are not deleted, in order.
pub open spec fn live(ids: Seq<u64>, deleted: Set<u64>) -> Seq<int>
    decreases ids.len(),
{
    if ids.len() == 0 {
        Seq::empty()
    } else {
        let before = live(ids.drop_last(), deleted);
        if deleted.contains(ids.last()) {
            before
        } else {
            before.push(ids.len() - 1)
        }
    }
}

/// The live positions are exactly those of identifiers that are not deleted, ascending.
pub proof fn lemma_live(ids: Seq<u64>, deleted: Set<u64>)
    ensures
        live(ids, deleted).len() <= ids.len(),
        forall|k: int|
            0 <= k < live(ids, deleted).len() ==> 0 <= #[trigger] live(ids, deleted)[k] < ids.len()
                && !deleted.contains(ids[live(ids, deleted)[k]]),
        forall|j: int, k: int|
            0 <= j < k < live(ids, deleted).len() ==> #[trigger] live(ids, deleted)[j] < #[trigger] live(
                ids,
                deleted,
            )[k],
        forall|i: int|
            0 <= i < ids.len() && !deleted.contains(#[trigger] ids[i]) ==> live(ids, deleted).contains(i),
    decreases ids.len(),
{
    if ids.len() > 0 {
        let rest = ids.drop_last();
        lemma_live(rest, deleted);
        let before = live(rest, deleted);
        let all = live(ids, deleted);
        assert forall|k: int| 0 <= k < all.len() implies 0 <= #[trigger] all[k] < ids.len() && !deleted.contains(
            ids[all[k]],
        ) by {
            if k < before.len() {
                assert(all[k] == before[k]);
            }
        }
        assert forall|j: int, k: int| 0 <= j < k < all.len() implies #[trigger] all[j] < #[trigger] all[k] by {
            assert(all[j] == before[j]);
            if k < before.len() {
                assert(all[k] == before[k]);
            }
        }
        assert forall|i: int| 0 <= i < ids.len() && !deleted.contains(#[trigger] ids[i]) implies all.contains(i) by {
            if i < rest.len() {
                assert(rest[i] == ids[i]);
                assert(before.contains(i));
                let k = choose|k: int| 0 <= k < before.len() && before[k] == i;
                assert(all[k] == i);
            } else {
                assert(all[all.len() - 1] == i);
            }
        }
    }
}

impl TurboIndex {
    /// The compression of vectors.
    pub closed spec fn compression(&self) -> LloydMaxCompressor {
        self.compressor
    }

    /// The storage of compressed vectors.
    pub closed spec fn store(&self) -> VectorStorage {
        self.storage
    }

    /// The identifiers, by position.
    pub closed spec fn identifiers(&self) -> Seq<u64> {
        self.ids@
    }

    /// The identifiers that count as deleted.
    pub closed spec fn removed(&self) -> Set<u64> {
        self.deleted@
    }

    /// An identifier above all that were inserted.
    pub closed spec fn next(&self) -> u64 {
        self.next_id
    }

    /// The dimension of the vectors.
    pub closed spec fn dimension(&self) -> usize {
        self.dim
    }

    /// The seeds of the rotation and of the projection.
    pub closed spec fn seeds(&self) -> (u64, u64) {
        (self.rotation_seed, self.qjl_seed)
    }

    /// The width of a quantization index.
    pub closed spec fn width(&self) -> u8 {
        self.bits
    }

    /// The positions of the vectors that are not deleted.
    pub open spec fn live_positions(&self) -> Seq<int> {
        live(self.identifiers(), self.removed())
    }

    /// `m` is the metadata of the index. The deleted identifiers may stand in any order.
    pub open spec fn described_by(&self, m: MetaFields) -> bool {
        &&& m.dim == self.dimension()
        &&& m.rotation_seed == self.seeds().0
        &&& m.qjl_seed == self.seeds().1
        &&& m.bits == self.width()
        &&& m.ids == self.identifiers()
        &&& m.deleted.no_duplicates()
        &&& m.deleted.to_set() == self.removed()
        &&& m.next_id == self.next()
        &&& m.version == META_VERSION
    }

    /// `data` is the contents of the metadata file of the index.
    pub open spec fn saved_as(&self, data: Seq<u8>) -> bool {
        exists|m: MetaFields| self.described_by(m) && data == #[trigger] encoded_meta(m)
    }

    fn deleted_list(&self) -> (r: Vec<u64>)
        ensures
            r@.no_duplicates(),
            r@.to_set() == self.removed(),
    {
        let mut out: Vec<u64> = Vec::new();
        for x in it: self.deleted.iter()
            invariant
                out@ == it.seq().unref().take(it.index()),
                it.seq().unref().no_duplicates(),
                it.seq().unref().to_set() == self.deleted@,
                it.index() == it.seq().len() ==> out@.to_set() == self.deleted@,
        {
            out.push(*x);
            assert(it.index() + 1 == it.seq().len() ==> out@ =~= it.seq().unref());
        }
        out
    }

    /// The parts agree on the dimension and on the width of an index.
    pub open spec fn matched(&self) -> bool {
        &&& self.compression().wf()
        &&& self.compression().dimension() == self.dimension()
        &&& self.compression().quantizer().width() == self.width()
        &&& self.store().wf()
        &&& self.store().dimension() == self.dimension()
        &&& self.store().width() == self.width()
    }

    /// The parts agree, also on the number of vectors.
    pub open spec fn wf(&self) -> bool {
        &&& self.matched()
        &&& self.identifiers().len() == self.store().count()
    }

    /// The file has a record for every vector that is not deleted.
    pub open spec fn backed_by(&self, file: Seq<u8>) -> bool {
        forall|k: int|
            0 <= k < self.live_positions().len() ==> self.store().readable(file, #[trigger] self.live_positions()[k])
    }

    /// The file has the record at a position, and the quantizer can read the vector in it.
    pub open spec fn can_read_at(&self, file: Seq<u8>, position: int) -> bool {
        &&& self.store().readable(file, position)
        &&& forall|lv: LloydMaxVector| #[trigger]
            self.store().holds(self.store().record_at(file, position), lv) ==> self.compression().quantizer().readable(
                lv.scalar,
            )
    }

    /// Every vector that is not deleted can be read from the file.
    pub open spec fn can_read(&self, file: Seq<u8>) -> bool {
        forall|k: int|
            0 <= k < self.live_positions().len() ==> self.can_read_at(file, #[trigger] self.live_positions()[k])
    }

    /// The file has the records of the vectors that are not deleted, and a new storage has room
    /// for them.
    pub open spec fn compactable(&self, file: Seq<u8>) -> bool {
        &&& self.backed_by(file)
        &&& self.dimension() * self.width() <= usize::MAX - 7
        &&& self.dimension() <= usize::MAX - 7
        &&& self.live_positions().len() <= u32::MAX
    }

    /// Every identifier that counts as deleted is that of a vector.
    pub open spec fn tidy(&self) -> bool {
        forall|x: u64| #[trigger] self.removed().contains(x) ==> self.identifiers().contains(x)
    }

    /// The number of bytes of the vector in a record.
    pub open spec fn record_len(&self) -> int {
        record_size(self.store().dimension() as int, self.store().width() as int)
    }

    /// The number of bytes of a record in a new storage, reduced to the width of the header's
    /// field.
    pub open spec fn new_stride(&self) -> int {
        record_size(self.dimension() as int, self.width() as int) % 0x1_0000_0000
    }

    /// The numbers that a storage file holds of the dimension and of a record fit in it.
    pub open spec fn storable(&self) -> bool {
        &&& self.dimension() <= u32::MAX
        &&& record_size(self.dimension() as int, self.width() as int) <= u32::MAX
    }

    /// The contents of the metadata file.
    pub fn meta_bytes(&self) -> (r: Vec<u8>)
        ensures
            self.saved_as(r@),
    {
        let meta = IndexMeta {
            dim: self.dim,
            rotation_seed: self.rotation_seed,
            qjl_seed: self.qjl_seed,
            bits: self.bits,
            ids: self.ids.clone(),
            deleted: self.deleted_list(),
            next_id: self.next_id,
            version: META_VERSION,
        };
        assert(self.described_by(meta@));
        meta.to_bytes()
    }

    /// A new index of the default width, and the contents of its files.
    pub fn create<B: FnOnce(usize, u8) -> LloydMaxQuantizer>(
        dim: usize,
        rotation_seed: u64,
        qjl_seed: u64,
        build: B,
    ) -> (r: (TurboIndex, IndexFiles))
        requires
            build.requires((dim, DEFAULT_BITS)),
            forall|q: LloydMaxQuantizer| #[trigger]
                build.ensures((dim, DEFAULT_BITS), q) ==> q.wf() && q.dimension() == dim && q.width() == DEFAULT_BITS,
            dim <= usize::MAX - 7,
        ensures
            Self::created(dim, rotation_seed, qjl_seed, DEFAULT_BITS, build, r.0, r.1),
            r.0.width() == 4,
    {
        Self::create_with_bits(dim, rotation_seed, qjl_seed, DEFAULT_BITS, build)
    }

    /// `index` is a new index without vectors around the quantizer that `build` gave, and
    /// `files` holds the contents of its files. The files are in step with it where the
    /// numbers that they hold of the dimension fit in them.
    pub open spec fn created<B: FnOnce(usize, u8) -> LloydMaxQuantizer>(
        dim: usize,
        rotation_seed: u64,
        qjl_seed: u64,
        bits: u8,
        build: B,
        index: TurboIndex,
        files: IndexFiles,
    ) -> bool {
        &&& build.ensures((dim, bits), index.compression().quantizer())
        &&& index.compression().dimension() == dim
        &&& index.compression().wf()
        &&& index.dimension() == dim
        &&& index.width() == bits
        &&& index.seeds() == (rotation_seed, qjl_seed)
        &&& index.identifiers() == Seq::<u64>::empty()
        &&& index.removed() == Set::<u64>::empty()
        &&& index.next() == 0
        &&& index.saved_as(files.meta@)
        &&& index.store().dimension() == dim
        &&& index.store().width() == bits
        &&& index.store().count() == 0
        &&& dim <= u32::MAX && record_size(dim as int, bits as int) <= u32::MAX ==> index.wf()
            && index.store().in_step(files.storage@)
    }

    /// A new index with the given width of a quantization index, and the contents of its
    /// files. `build` gives the quantizer for a dimension and a width.
    pub fn create_with_bits<B: FnOnce(usize, u8) -> LloydMaxQuantizer>(
        dim: usize,
        rotation_seed: u64,
        qjl_seed: u64,
        bits: u8,
        build: B,
    ) -> (r: (TurboIndex, IndexFiles))
        requires
            build.requires((dim, bits)),
            forall|q: LloydMaxQuantizer| #[trigger]
                build.ensures((dim, bits), q) ==> q.wf() && q.dimension() == dim && q.width() == bits,
            dim <= usize::MAX - 7,
        ensures
            Self::created(dim, rotation_seed, qjl_seed, bits, build, r.0, r.1),
    {
        let compressor = LloydMaxCompressor::new(build(dim, bits));
        let (storage, image) = VectorStorage::create(dim, bits);
        let index = TurboIndex {
            compressor,
            storage,
            ids: Vec::new(),
            deleted: HashSet::new(),
            next_id: 0,
            dim,
            rotation_seed,
            qjl_seed,
            bits,
        };
        let meta: Vec<u8> = index.meta_bytes();
        (index, IndexFiles { storage: image, meta })
    }

    /// The index of existing files. `build` gives the quantizer for a dimension and a width.
    pub fn open<B: FnOnce(usize, u8) -> LloydMaxQuantizer>(meta: &[u8], storage: &[u8], build: B) -> (r: Result<
        TurboIndex,
        TurboError,
    >)
        requires
            forall|m: MetaFields| (#[trigger] encoded_meta(m)).is_prefix_of(meta@) ==> build.requires((m.dim, m.bits)),
        ensures
            match r {
                Ok(index) => {
                    &&& exists|m: MetaFields| #[trigger]
                        encoded_meta(m).is_prefix_of(meta@) && index.loaded_from(m) && build.ensures(
                            (m.dim, m.bits),
                            index.compression().quantizer(),
                        )
                    &&& storage@.len() >= 21
                    &&& storage@.take(4) == magic_bytes()
                    &&& index.store().described_by(storage@)
                },
                Err(TurboError::Storage(text)) => {
                    ||| text@ == "failed to deserialize meta: "@ + decoding_failure(meta@) && forall|m: MetaFields|
                        !(#[trigger] encoded_meta(m)).is_prefix_of(meta@)
                    ||| text@ == "invalid magic for TurboQuant Lloyd-Max file"@ && storage@.len() >= 16
                        && storage@.take(4) != magic_bytes() && exists|m: MetaFields|
                        (#[trigger] encoded_meta(m)).is_prefix_of(meta@)
                },
                Err(TurboError::Io(text)) => {
                    &&& text@ == "failed to fill whole buffer"@
                    &&& storage@.len() < 16 || (storage@.take(4) == magic_bytes() && storage@.len() < 21)
                    &&& exists|m: MetaFields| (#[trigger] encoded_meta(m)).is_prefix_of(meta@)
                },
                Err(_) => false,
            },
    {
        let m = match IndexMeta::from_bytes(meta) {
            Ok(m) => m,
            Err(e) => return Err(e),
        };
        let ghost fields = m@;
        assert(encoded_meta(fields).is_prefix_of(meta@));
        let compressor = LloydMaxCompressor::new(build(m.dim, m.bits));
        let storage = match VectorStorage::open(storage) {
            Ok(s) => s,
            Err(e) => return Err(e),
        };
        let mut deleted: HashSet<u64> = HashSet::new();
        let mut i: usize = 0;
        while i < m.deleted.len()
            invariant
                i <= m.deleted@.len(),
                deleted@ =~= m.deleted@.take(i as int).to_set(),
            decreases m.deleted@.len() - i,
        {
            deleted.insert(m.deleted[i]);
            proof {
                let before = m.deleted@.take(i as int);
                let after = m.deleted@.take(i + 1);
                assert(after =~= before.push(m.deleted@[i as int]));
                lemma_push_to_set(before, m.deleted@[i as int]);
            }
            i = i + 1;
        }
        assert(m.deleted@.take(i as int) =~= m.deleted@);
        let index = TurboIndex {
            compressor,
            storage,
            ids: m.ids,
            deleted,
            next_id: m.next_id,
            dim: m.dim,
            rotation_seed: m.rotation_seed,
            qjl_seed: m.qjl_seed,
            bits: m.bits,
        };
        assert(index.loaded_from(fields));
        Ok(index)
    }

    /// Inserts a vector under an identifier. What has to be written is given back; nothing
    /// changes where the vector has not the dimension of the index, or its record not the
    /// size of the storage's.
    ///
    /// The last three arguments are those of `LloydMaxCompressor::compress`.
    pub fn insert<
        R: FnOnce(&[Scalar]) -> (Vec<Scalar>, Scalar),
        D: FnOnce(&[Scalar], &[Scalar]) -> (Vec<Scalar>, Scalar),
        P: FnOnce(&[Scalar]) -> Vec<Scalar>,
    >(&mut self, id: u64, vector: &[Scalar], rotate: R, residual: D, project: P) -> (r: Result<Inserted, TurboError>)
        requires
            old(self).compression().wf(),
            old(self).compression().dimension() == old(self).dimension(),
            old(self).store().count() < u32::MAX,
            id < u64::MAX,
            vector@.len() == old(self).dimension() ==> rotate.requires((vector,)),
            forall|y: (Vec<Scalar>, Scalar)| #[trigger]
                rotate.ensures((vector,), y) ==> y.0@.len() == old(self).dimension(),
            forall|a: &[Scalar], b: &[Scalar]| #[trigger] residual.requires((a, b)),
            forall|a: &[Scalar], b: &[Scalar], d: (Vec<Scalar>, Scalar)| #[trigger]
                residual.ensures((a, b), d) && a@.len() == old(self).dimension() ==> d.0@.len() == old(
                    self,
                ).dimension(),
            forall|c: &[Scalar]| #[trigger] project.requires((c,)),
            forall|c: &[Scalar], z: Vec<Scalar>| #[trigger]
                project.ensures((c,), z) && c@.len() == old(self).dimension() ==> z@.len() == old(self).dimension(),
        ensures
            final(self).compression() == old(self).compression(),
            final(self).removed() == old(self).removed(),
            final(self).dimension() == old(self).dimension(),
            final(self).width() == old(self).width(),
            final(self).seeds() == old(self).seeds(),
            old(self).wf() ==> final(self).wf(),
            old(self).tidy() ==> final(self).tidy(),
            r is Ok <==> vector@.len() == old(self).dimension() && old(self).compression().vector_size() == old(
                self,
            ).store().stride(),
            match r {
                Ok(w) => {
                    &&& exists|
                        lv: LloydMaxVector,
                        y: (Vec<Scalar>, Scalar),
                        b: &[Scalar],
                        d: (Vec<Scalar>, Scalar),
                        z: Vec<Scalar>,
                    |
                        #[trigger] old(self).compression().compressed_by(
                            vector,
                            rotate,
                            residual,
                            project,
                            lv,
                            y,
                            b,
                            d,
                            z,
                        ) && appends(old(self).store(), lv.stored(), final(self).store(), w.append)
                    &&& final(self).identifiers() == old(self).identifiers().push(id)
                    &&& final(self).next() == (if id >= old(self).next() {
                        (id + 1) as u64
                    } else {
                        old(self).next()
                    })
                    &&& final(self).saved_as(w.meta@)
                },
                Err(e) => {
                    &&& final(self).store() == old(self).store()
                    &&& final(self).identifiers() == old(self).identifiers()
                    &&& final(self).next() == old(self).next()
                    &&& e == (if vector@.len() != old(self).dimension() {
                        TurboError::DimensionMismatch { expected: old(self).dimension(), got: vector@.len() as usize }
                    } else {
                        TurboError::DimensionMismatch {
                            expected: old(self).store().stride() as usize,
                            got: old(self).compression().vector_size() as usize,
                        }
                    })
                },
            },
    {
        if vector.len() != self.dim {
            return Err(TurboError::DimensionMismatch { expected: self.dim, got: vector.len() });
        }
        let lv: LloydMaxVector = self.compressor.compress(vector, rotate, residual, project);
        let ghost before = self.storage;
        let written = match self.storage.append(&lv) {
            Ok(w) => w,
            Err(e) => {
                assert(self.storage == before) by {
                    crate::storage::lemma_same_storage(self.storage, before);
                }
                return Err(e);
            },
        };
        assert(appends(before, lv.stored(), self.storage, written)) by {
            crate::storage::lemma_record_len(lv.stored());
        }
        self.ids.push(id);
        if id >= self.next_id {
            self.next_id = id + 1;
        }
        proof {
            if old(self).tidy() {
                assert forall|x: u64| #[trigger] self.removed().contains(x) implies self.identifiers().contains(x) by {
                    assert(old(self).removed().contains(x));
                    let k = choose|k: int| 0 <= k < old(self).identifiers().len() && old(self).identifiers()[k] == x;
                    assert(self.identifiers()[k] == x);
                }
            }
        }
        let meta: Vec<u8> = self.meta_bytes();
        Ok(Inserted { append: written, meta })
    }

    fn holds_id(&self, id: u64) -> (r: bool)
        ensures
            r == self.identifiers().contains(id),
    {
        let mut i: usize = 0;
        while i < self.ids.len()
            invariant
                i <= self.ids@.len(),
                forall|k: int| 0 <= k < i ==> self.ids@[k] != id,
            decreases self.ids@.len() - i,
        {
            if self.ids[i] == id {
                assert(self.ids@[i as int] == id);
                return true;
            }
            i = i + 1;
        }
        false
    }

    /// Marks the vectors with an identifier as deleted. The new contents of the metadata file
    /// are given back; nothing changes where no vector has the identifier.
    pub fn delete(&mut self, id: u64) -> (r: Result<Vec<u8>, TurboError>)
        ensures
            final(self).compression() == old(self).compression(),
            final(self).store() == old(self).store(),
            final(self).identifiers() == old(self).identifiers(),
            final(self).next() == old(self).next(),
            final(self).dimension() == old(self).dimension(),
            final(self).width() == old(self).width(),
            final(self).seeds() == old(self).seeds(),
            old(self).wf() ==> final(self).wf(),
            old(self).tidy() ==> final(self).tidy(),
            match r {
                Ok(meta) => {
                    &&& old(self).identifiers().contains(id)
                    &&& final(self).removed() == old(self).removed().insert(id)
                    &&& final(self).saved_as(meta@)
                },
                Err(e) => {
                    &&& !old(self).identifiers().contains(id)
                    &&& final(self).removed() == old(self).removed()
                    &&& e == TurboError::NotFound(id)
                },
            },
    {
        if !self.holds_id(id) {
            return Err(TurboError::NotFound(id));
        }
        self.deleted.insert(id);
        proof {
            if old(self).tidy() {
                assert forall|x: u64| #[trigger] self.removed().contains(x) implies self.identifiers().contains(x) by {
                    assert(x == id || old(self).removed().contains(x));
                }
            }
        }
        Ok(self.meta_bytes())
    }

    /// The number of vectors that are not deleted.
    pub fn len(&self) -> (r: usize)
        ensures
            r == self.live_positions().len(),
    {
        let mut n: usize = 0;
        let mut i: usize = 0;
        while i < self.ids.len()
            invariant
                i <= self.ids@.len(),
                n == live(self.ids@.take(i as int), self.deleted@).len(),
                n <= i,
            decreases self.ids@.len() - i,
        {
            assert(self.ids@.take(i + 1).drop_last() =~= self.ids@.take(i as int));
            if !self.deleted.contains(&self.ids[i]) {
                n = n + 1;
            }
            i = i + 1;
        }
        assert(self.ids@.take(i as int) =~= self.ids@);
        n
    }

    /// Whether there is no vector that is not deleted.
    pub fn is_empty(&self) -> (r: bool)
        ensures
            r == (self.live_positions().len() == 0),
    {
        self.len() == 0
    }

    /// The number of identifiers, those of deleted vectors counted.
    pub fn identifier_count(&self) -> (r: usize)
        ensures
            r == self.identifiers().len(),
    {
        self.ids.len()
    }

    /// The number of records in the storage, those of deleted vectors counted.
    pub fn record_count(&self) -> (r: usize)
        ensures
            r == self.store().count(),
    {
        self.storage.len()
    }

    /// `score` is the similarity of the prepared query to the vector at a position.
    pub open spec fn scored<
        T: Fn(&[Scalar], &[Scalar]) -> Scalar,
        F: Fn(Scalar, bool, Scalar) -> Scalar,
        G: Fn(Scalar, Scalar) -> Scalar,
        H: Fn(Scalar, Scalar, Scalar) -> Scalar,
    >(
        &self,
        prepared: PreparedQuery,
        file: Seq<u8>,
        position: int,
        dot: T,
        step: F,
        scale: G,
        finish: H,
        score: Scalar,
    ) -> bool {
        exists|lv: LloydMaxVector, rotated: &[Scalar], sim: Scalar, correction: Scalar|
            self.store().holds(self.store().record_at(file, position), lv) && #[trigger]
                self.compression().estimated_by(
                    prepared,
                    lv,
                    dot,
                    step,
                    scale,
                    finish,
                    score,
                    rotated,
                    sim,
                    correction,
                )
    }

    /// The keys that order scores from the highest on.
    pub open spec fn score_keys(scores: Seq<Scalar>) -> Seq<i128> {
        scores.map_values(|s: Scalar| s.descending_key())
    }

    /// `results` are the best `top_k` of the live vectors, with the given scores of all of
    /// them: from the highest score on, and of equal scores the earlier position first.
    pub open spec fn are_best(&self, scores: Seq<Scalar>, top_k: int, results: Seq<SearchResult>) -> bool {
        exists|picks: Seq<usize>| #[trigger]
            is_leading(Self::score_keys(scores), picks, top_k) && results == picks.map_values(
                |k: usize|
                    SearchResult {
                        id: self.identifiers()[self.live_positions()[k as int]],
                        score: scores[k as int],
                    },
            )
    }

    /// A search for the prepared query can find `results`: the best `top_k` by scores of the
    /// live vectors.
    pub open spec fn finds<
        T: Fn(&[Scalar], &[Scalar]) -> Scalar,
        F: Fn(Scalar, bool, Scalar) -> Scalar,
        G: Fn(Scalar, Scalar) -> Scalar,
        H: Fn(Scalar, Scalar, Scalar) -> Scalar,
    >(
        &self,
        prepared: PreparedQuery,
        file: Seq<u8>,
        top_k: int,
        dot: T,
        step: F,
        scale: G,
        finish: H,
        results: Seq<SearchResult>,
    ) -> bool {
        exists|scores: Seq<Scalar>|
            {
                &&& #[trigger] self.are_best(scores, top_k, results)
                &&& scores.len() == self.live_positions().len()
                &&& forall|k: int|
                    0 <= k < scores.len() ==> self.scored(
                        prepared,
                        file,
                        self.live_positions()[k],
                        dot,
                        step,
                        scale,
                        finish,
                        #[trigger] scores[k],
                    )
            }
    }

    /// The `top_k` vectors that are most similar to the query.
    ///
    /// `file` is the contents of the storage file, and the other arguments are those of
    /// `LloydMaxCompressor::prepare_query` and `LloydMaxCompressor::similarity_prepared`.
    pub fn search<
        R: FnOnce(&[Scalar]) -> Vec<Scalar>,
        P: FnOnce(&[Scalar]) -> Vec<Scalar>,
        T: Fn(&[Scalar], &[Scalar]) -> Scalar,
        F: Fn(Scalar, bool, Scalar) -> Scalar,
        G: Fn(Scalar, Scalar) -> Scalar,
        H: Fn(Scalar, Scalar, Scalar) -> Scalar,
    >(
        &self,
        file: &[u8],
        query: &[Scalar],
        top_k: usize,
        rotate: R,
        project: P,
        dot: &T,
        step: &F,
        scale: &G,
        finish: &H,
    ) -> (r: Vec<SearchResult>)
        requires
            query@.len() == self.dimension() && self.identifiers().len() > 0 ==> {
                &&& self.compression().wf()
                &&& self.compression().dimension() == self.dimension()
                &&& self.can_read(file@)
            },
            query@.len() == self.dimension() ==> rotate.requires((query,)),
            forall|a: &[Scalar]| #[trigger] project.requires((a,)),
            forall|a: &[Scalar], z: Vec<Scalar>| #[trigger] project.ensures((a,), z) ==> z@.len() == self.dimension(),
            forall|x: &[Scalar], y: &[Scalar]| #[trigger] dot.requires((x, y)),
            forall|s: Scalar, b: bool, p: Scalar| #[trigger] step.requires((s, b, p)),
            forall|n: Scalar, s: Scalar| #[trigger] scale.requires((n, s)),
            forall|n: Scalar, s: Scalar, c: Scalar| #[trigger] finish.requires((n, s, c)),
        ensures
            query@.len() != self.dimension() || self.identifiers().len() == 0 ==> r@.len() == 0,
            query@.len() == self.dimension() && self.identifiers().len() > 0 ==> exists|q: PreparedQuery|
                #![trigger self.compression().prepared(query, rotate, project, q)]
                self.compression().prepared(query, rotate, project, q) && self.finds(
                    q,
                    file@,
                    top_k as int,
                    *dot,
                    *step,
                    *scale,
                    *finish,
                    r@,
                ),
    {
        if query.len() != self.dim || self.ids.len() == 0 {
            return Vec::new();
        }
        let prepared = self.compressor.prepare_query(query, rotate, project);
        let mut found: Vec<SearchResult> = Vec::new();
        let mut keys: Vec<i128> = Vec::new();
        let ghost mut scores: Seq<Scalar> = Seq::empty();
        let mut i: usize = 0;
        while i < self.ids.len()
            invariant
                i <= self.ids@.len(),
                self.can_read(file@),
                self.compression().wf(),
                self.compression().dimension() == self.dimension(),
                prepared.qjl_projected@.len() == self.dim,
                forall|x: &[Scalar], y: &[Scalar]| #[trigger] dot.requires((x, y)),
                forall|s: Scalar, b: bool, p: Scalar| #[trigger] step.requires((s, b, p)),
                forall|n: Scalar, s: Scalar| #[trigger] scale.requires((n, s)),
                forall|n: Scalar, s: Scalar, c: Scalar| #[trigger] finish.requires((n, s, c)),
                scores.len() == live(self.ids@.take(i as int), self.deleted@).len(),
                keys@ =~= Self::score_keys(scores),
                found@.len() == scores.len(),
                forall|k: int|
                    0 <= k < scores.len() ==> self.scored(
                        prepared,
                        file@,
                        live(self.ids@.take(i as int), self.deleted@)[k],
                        *dot,
                        *step,
                        *scale,
                        *finish,
                        #[trigger] scores[k],
                    ),
                forall|k: int|
                    0 <= k < scores.len() ==> #[trigger] found@[k] == (SearchResult {
                        id: self.ids@[live(self.ids@.take(i as int), self.deleted@)[k]],
                        score: scores[k],
                    }),
            decreases self.ids@.len() - i,
        {
            let ghost before = live(self.ids@.take(i as int), self.deleted@);
            let ghost after = live(self.ids@.take(i + 1), self.deleted@);
            assert(self.ids@.take(i + 1).drop_last() =~= self.ids@.take(i as int));
            let id: u64 = self.ids[i];
            if !self.deleted.contains(&id) {
                proof {
                    lemma_live(self.ids@, self.deleted@);
                    assert(self.live_positions().contains(i as int));
                    assert(self.can_read_at(file@, i as int));
                }
                let lv: LloydMaxVector = self.storage.get(file, i);
                assert(self.compression().quantizer().readable(lv.scalar));
                let score: Scalar = self.compressor.similarity_prepared(&prepared, &lv, dot, step, scale, finish);
                proof {
                    assert(self.scored(prepared, file@, i as int, *dot, *step, *scale, *finish, score));
                    assert(after == before.push(i as int));
                    let scores_before = scores;
                    scores = scores.push(score);
                    assert forall|k: int| 0 <= k < scores.len() implies self.scored(
                        prepared,
                        file@,
                        after[k],
                        *dot,
                        *step,
                        *scale,
                        *finish,
                        #[trigger] scores[k],
                    ) by {
                        if k < scores_before.len() {
                            assert(scores[k] == scores_before[k]);
                        }
                    }
                }
                let ghost found_before = found@;
                found.push(SearchResult { id, score });
                keys.push(score.sort_key());
                proof {
                    assert forall|k: int| 0 <= k < scores.len() implies #[trigger] found@[k] == (SearchResult {
                        id: self.ids@[after[k]],
                        score: scores[k],
                    }) by {
                        if k < found_before.len() {
                            assert(found@[k] == found_before[k]);
                            assert(after[k] == before[k]);
                        }
                    }
                }
            } else {
                assert(after == before);
            }
            i = i + 1;
        }
        assert(self.ids@.take(i as int) =~= self.ids@);
        let picks: Vec<usize> = leading(&keys, top_k);
        let mut r: Vec<SearchResult> = Vec::with_capacity(picks.len());
        let mut j: usize = 0;
        while j < picks.len()
            invariant
                j <= picks@.len(),
                forall|n: int| 0 <= n < picks@.len() ==> #[trigger] picks@[n] < found@.len(),
                r@ =~= picks@.take(j as int).map_values(|k: usize| found@[k as int]),
            decreases picks@.len() - j,
        {
            r.push(found[picks[j]]);
            j = j + 1;
        }
        proof {
            assert(r@ =~= picks@.map_values(
                |k: usize| SearchResult {
                    id: self.identifiers()[self.live_positions()[k as int]],
                    score: scores[k as int],
                },
            ));
            assert(self.are_best(scores, top_k as int, r@));
            assert(self.finds(prepared, file@, top_k as int, *dot, *step, *scale, *finish, r@));
        }
        r
    }

    /// The identifiers of the vectors that are not deleted, in order.
    pub open spec fn live_identifiers(&self) -> Seq<u64> {
        self.live_positions().map_values(|i: int| self.identifiers()[i])
    }

    /// The contents of a storage file without vectors, which a compaction starts with. Where it
    /// fails, the file is left with them.
    pub fn empty_storage(&self) -> (r: Vec<u8>)
        requires
            self.dimension() * self.width() <= usize::MAX - 7,
            self.dimension() <= usize::MAX - 7,
        ensures
            exists|s: VectorStorage|
                {
                    &&& s.start().magic@ == magic_bytes()
                    &&& s.start().version == 1
                    &&& s.count() == 0
                    &&& s.stride() == self.new_stride()
                    &&& r@ == #[trigger] s.start().encoded() + le(self.dimension() as nat % 0x1_0000_0000, 4)
                        + seq![self.width()]
                },
    {
        let (storage, image) = VectorStorage::create(self.dim, self.bits);
        let ghost s = storage;
        assert(image@ == s.start().encoded() + le(self.dimension() as nat % 0x1_0000_0000, 4) + seq![self.width()]);
        image
    }

    /// Rebuilds the index without the deleted vectors. The new contents of both files are
    /// given back; where nothing is deleted, nothing changes and nothing is to be written.
    /// Vectors whose records have not the size of a new storage's are an error, and nothing
    /// changes.
    pub fn compact(&mut self, file: &[u8]) -> (r: Result<Option<IndexFiles>, TurboError>)
        requires
            old(self).removed().len() > 0 ==> old(self).compactable(file@),
        ensures
            final(self).compression() == old(self).compression(),
            final(self).next() == old(self).next(),
            final(self).dimension() == old(self).dimension(),
            final(self).width() == old(self).width(),
            final(self).seeds() == old(self).seeds(),
            match r {
                Ok(None) => old(self).removed().len() == 0 && *final(self) == *old(self),
                Ok(Some(files)) => {
                    &&& old(self).removed().len() > 0
                    &&& old(self).matched() ==> final(self).wf()
                    &&& final(self).removed() == Set::<u64>::empty()
                    &&& final(self).identifiers() == old(self).live_identifiers()
                    &&& final(self).store().dimension() == old(self).dimension()
                    &&& final(self).store().width() == old(self).width()
                    &&& final(self).store().count() == old(self).live_positions().len()
                    &&& old(self).live_positions().len() > 0 ==> old(self).record_len() == old(self).new_stride()
                    &&& old(self).storable() ==> {
                        &&& final(self).store().in_step(files.storage@)
                        &&& forall|k: int|
                            0 <= k < old(self).live_positions().len() ==> #[trigger] final(self).store().record_at(
                                files.storage@,
                                k,
                            ) == old(self).store().record_at(file@, old(self).live_positions()[k]).take(
                                old(self).record_len(),
                            )
                    }
                    &&& old(self).matched() ==> forall|k: int|
                        0 <= k < old(self).live_positions().len() ==> #[trigger] final(self).store().record_at(
                            files.storage@,
                            k,
                        ) == old(self).store().record_at(file@, old(self).live_positions()[k])
                    &&& final(self).saved_as(files.meta@)
                },
                Err(e) => {
                    &&& old(self).removed().len() > 0
                    &&& old(self).live_positions().len() > 0
                    &&& old(self).record_len() != old(self).new_stride()
                    &&& *final(self) == *old(self)
                    &&& e == TurboError::DimensionMismatch {
                        expected: old(self).new_stride() as usize,
                        got: old(self).record_len() as usize,
                    }
                },
            },
    {
        if self.deleted.len() == 0 {
            return Ok(None);
        }
        let ghost before = *self;
        let (mut new_storage, mut image) = VectorStorage::create(self.dim, self.bits);
        proof {
            lemma_preamble_len(new_storage);
        }
        let mut live_ids: Vec<u64> = Vec::new();
        let mut i: usize = 0;
        while i < self.ids.len()
            invariant
                *self == before,
                before.removed().len() > 0,
                before.backed_by(file@),
                before.live_positions().len() <= u32::MAX,
                i <= self.ids@.len(),
                image@.len() >= 16,
                before.storable() ==> new_storage.in_step(image@),
                new_storage.dimension() == self.dim,
                new_storage.width() == self.bits,
                new_storage.stride() == before.new_stride(),
                live_ids@.len() > 0 ==> before.record_len() == before.new_stride(),
                new_storage.count() == live_ids@.len(),
                live_ids@.len() <= i,
                live_ids@ =~= live(self.ids@.take(i as int), self.deleted@).map_values(|p: int| self.ids@[p]),
                before.storable() ==> forall|k: int|
                    0 <= k < live_ids@.len() ==> #[trigger] new_storage.record_at(image@, k) == self.storage.record_at(
                        file@,
                        live(self.ids@.take(i as int), self.deleted@)[k],
                    ).take(before.record_len()),
            decreases self.ids@.len() - i,
        {
            let ghost kept = live(self.ids@.take(i as int), self.deleted@);
            let ghost after = live(self.ids@.take(i + 1), self.deleted@);
            assert(self.ids@.take(i + 1).drop_last() =~= self.ids@.take(i as int));
            let id: u64 = self.ids[i];
            if !self.deleted.contains(&id) {
                proof {
                    lemma_live(self.ids@, self.deleted@);
                    assert(self.live_positions().contains(i as int));
                    lemma_live_prefix(self.ids@, self.deleted@, i + 1);
                }
                let lv: LloydMaxVector = self.storage.get(file, i);
                let ghost old_storage = new_storage;
                let ghost old_image = image@;
                proof {
                    lemma_record_len(lv.stored());
                    let whole = self.storage.record_at(file@, i as int);
                    let stride = self.storage.stride();
                    assert((i + 1) * stride == i * stride + stride && 0 <= i * stride) by (nonlinear_arith)
                        requires
                            i >= 0,
                            stride >= 0,
                    ;
                    assert(whole.take(before.record_len()) == record(lv.stored()));
                }
                match new_storage.append(&lv) {
                    Ok(w) => {
                        proof {
                            lemma_preamble_len(old_storage);
                            lemma_preamble_len(new_storage);
                            if before.storable() {
                                law_append_extends(old_storage, old_image, lv.stored(), new_storage, w);
                            }
                        }
                        w.apply(&mut image);
                    },
                    Err(e) => {
                        return Err(e);
                    },
                }
                live_ids.push(id);
                proof {
                    assert(after == kept.push(i as int));
                    assert forall|k: int| before.storable() && 0 <= k < live_ids@.len() implies #[trigger] new_storage.record_at(
                        image@,
                        k,
                    ) == self.storage.record_at(file@, after[k]).take(before.record_len()) by {
                        if k < kept.len() {
                            assert(after[k] == kept[k]);
                            assert(new_storage.record_at(image@, k) == old_storage.record_at(old_image, k));
                        }
                    }
                }
            } else {
                assert(after == kept);
            }
            i = i + 1;
        }
        assert(self.ids@.take(i as int) =~= self.ids@);
        proof {
            if before.matched() {
                lemma_live(before.identifiers(), before.removed());
                assert forall|k: int| 0 <= k < before.live_positions().len() implies #[trigger] new_storage.record_at(
                    image@,
                    k,
                ) == before.store().record_at(file@, before.live_positions()[k]) by {
                    let at = before.live_positions()[k];
                    let whole = before.store().record_at(file@, at);
                    assert(before.store().readable(file@, at));
                    lemma_record_whole(before.store(), file@, at);
                    assert(whole.take(before.record_len()) =~= whole);
                }
            }
        }
        self.storage = new_storage;
        self.ids = live_ids;
        self.deleted = HashSet::new();
        let meta: Vec<u8> = self.meta_bytes();
        Ok(Some(IndexFiles { storage: image, meta }))
    }

    /// Whether every vector that is not deleted can be read from the storage file: it has the
    /// record, and the quantizer has a centroid for each index in it.
    pub fn is_consistent(&self, file: &[u8]) -> (r: bool)
        requires
            self.compression().wf(),
        ensures
            r == self.can_read(file@),
    {
        let fitting: bool = self.storage.dim() == self.compressor.dim() && 1 <= self.storage.bits()
            && self.storage.bits() <= self.compressor.lloyd_max().bits();
        proof {
            lemma_live(self.ids@, self.deleted@);
        }
        let mut i: usize = 0;
        while i < self.ids.len()
            invariant
                i <= self.ids@.len(),
                self.compression().wf(),
                fitting == (self.store().dimension() == self.compression().dimension() && 1 <= self.store().width()
                    <= self.compression().quantizer().width()),
                forall|k: int|
                    0 <= k < i && !self.deleted@.contains(#[trigger] self.ids@[k]) ==> self.can_read_at(file@, k),
            decreases self.ids@.len() - i,
        {
            if !self.deleted.contains(&self.ids[i]) {
                if !self.storage.has_records(file, i + 1) {
                    proof {
                        lemma_unreadable(*self, file@, i as int);
                    }
                    return false;
                }
                let lv: LloydMaxVector = self.storage.get(file, i);
                let named: bool = fitting || self.compressor.lloyd_max().can_decompress(&lv.scalar);
                proof {
                    if fitting {
                        lemma_stored_readable(self.compression().quantizer(), lv.scalar);
                    }
                    lemma_one_vector(*self, file@, i as int, lv);
                }
                if !named {
                    proof {
                        lemma_unreadable(*self, file@, i as int);
                    }
                    return false;
                }
            }
            i = i + 1;
        }
        proof {
            lemma_live(self.ids@, self.deleted@);
        }
        true
    }

    fn has_live_records(&self, file: &[u8]) -> (r: bool)
        ensures
            r == self.backed_by(file@),
    {
        let mut n: usize = self.ids.len();
        assert(self.ids@.take(n as int) =~= self.ids@);
        while n > 0 && self.deleted.contains(&self.ids[n - 1])
            invariant
                n <= self.ids@.len(),
                live(self.ids@, self.deleted@) == live(self.ids@.take(n as int), self.deleted@),
            decreases n,
        {
            assert(self.ids@.take(n as int).drop_last() =~= self.ids@.take(n - 1));
            n = n - 1;
        }
        proof {
            lemma_live(self.ids@.take(n as int), self.deleted@);
            let all = live(self.ids@, self.deleted@);
            assert(all == self.live_positions());
            if n > 0 {
                assert(self.ids@.take(n as int).drop_last() =~= self.ids@.take(n - 1));
                assert(all.last() == n - 1);
                assert forall|k: int| 0 <= k < all.len() && self.storage.readable(file@, n - 1) implies
                    self.storage.readable(file@, #[trigger] all[k]) by {
                    lemma_earlier_readable(self.storage, file@, all[k], n as int);
                }
                assert(self.backed_by(file@) ==> self.store().readable(file@, self.live_positions()[all.len() - 1]));
            }
        }
        self.storage.has_records(file, n)
    }

    /// Whether the storage file has the records of the vectors that are not deleted, and a new
    /// storage has room for them.
    pub fn is_compactable(&self, file: &[u8]) -> (r: bool)
        ensures
            r == self.compactable(file@),
    {
        proof {
            let (d, b) = (self.dim as int, self.bits as int);
            assert(0 <= d * b <= 0xffff_ffff_ffff_ffff * 255) by (nonlinear_arith)
                requires
                    0 <= d <= 0xffff_ffff_ffff_ffff,
                    0 <= b <= 255,
            ;
        }
        let max: u128 = usize::MAX as u128 - 7;
        let dim: u128 = self.dim as u128;
        self.has_live_records(file) && dim * self.bits as u128 <= max && dim <= max && self.len() <= u32::MAX as usize
    }

    /// The number of identifiers that count as deleted.
    pub fn deleted_count(&self) -> (r: usize)
        ensures
            r == self.removed().len(),
    {
        self.deleted.len()
    }

    /// The index has what the metadata says.
    pub open spec fn loaded_from(&self, m: MetaFields) -> bool {
        &&& self.dimension() == m.dim
        &&& self.compression().dimension() == self.compression().quantizer().dimension()
        &&& self.compression().signer().dimension() == self.compression().quantizer().dimension()
        &&& self.seeds() == (m.rotation_seed, m.qjl_seed)
        &&& self.width() == m.bits
        &&& self.identifiers() == m.ids
        &&& self.removed() == m.deleted.to_set()
        &&& self.next() == m.next_id
    }
}

/// The live positions of the first identifiers are the first live positions.
proof fn lemma_live_prefix(ids: Seq<u64>, deleted: Set<u64>, n: int)
    requires
        0 <= n <= ids.len(),
    ensures
        live(ids.take(n), deleted).len() <= live(ids, deleted).len(),
        live(ids.take(n), deleted) == live(ids, deleted).take(live(ids.take(n), deleted).len() as int),
    decreases ids.len() - n,
{
    if n < ids.len() {
        lemma_live_prefix(ids, deleted, n + 1);
        assert(ids.take(n + 1).drop_last() =~= ids.take(n));
        let a = live(ids.take(n), deleted);
        let b = live(ids.take(n + 1), deleted);
        assert(a =~= b.take(a.len() as int));
        assert(b.take(a.len() as int) =~= live(ids, deleted).take(a.len() as int));
    } else {
        assert(ids.take(n) =~= ids);
        assert(live(ids, deleted).take(live(ids, deleted).len() as int) =~= live(ids, deleted));
    }
}

proof fn lemma_earlier_readable(s: VectorStorage, file: Seq<u8>, i: int, n: int)
    requires
        0 <= i < n,
        s.readable(file, n - 1),
    ensures
        s.readable(file, i),
{
    let stride = s.stride();
    assert((i + 1) * stride <= n * stride) by (nonlinear_arith)
        requires
            i + 1 <= n,
            stride >= 0,
    ;
}

proof fn lemma_stored_readable(q: LloydMaxQuantizer, sqv: ScalarQuantVector)
    requires
        q.wf(),
        sqv.dim == q.dimension(),
        1 <= sqv.bits <= q.width(),
        sqv.dim * sqv.bits <= usize::MAX,
        sqv.data@.len() == packed_len(sqv.dim as int, sqv.bits as int),
    ensures
        q.readable(sqv),
{
    let (bits, width) = (sqv.bits, q.width());
    let data = sqv.data@;
    let dim = sqv.dim as int;
    assert forall|i: int, v: u8| 0 <= i < dim && #[trigger] field_is(data, i * bits, bits as int, v) implies v
        < q.centers().len() by {
        assert(fits(v, width as int));
        lemma_value_below(v, width);
    }
    if dim > 0 {
        crate::compression::lloyd_max::lemma_within(dim - 1, dim, bits as int);
    }
}

proof fn lemma_value_below(v: u8, bits: u8)
    requires
        1 <= bits <= 8,
        fits(v, bits as int),
    ensures
        v < 1usize << bits,
{
    if bits < 8 {
        lemma_fits_iff_below(v, bits as int);
        assert(1u8 << bits == 1usize << bits) by (bit_vector)
            requires
                bits < 8,
        ;
    } else {
        assert(1usize << 8u8 == 256) by (bit_vector);
    }
}

/// The record of a storage whose records have no room to spare.
proof fn lemma_record_whole(s: VectorStorage, file: Seq<u8>, idx: int)
    requires
        0 <= idx,
        s.readable(file, idx),
    ensures
        s.record_at(file, idx).len() == s.stride(),
{
    let stride = s.stride();
    assert((idx + 1) * stride == idx * stride + stride && 0 <= idx * stride) by (nonlinear_arith)
        requires
            idx >= 0,
            stride >= 0,
    ;
}

/// A record holds one vector, up to how it is kept in memory.
proof fn lemma_one_vector(index: TurboIndex, file: Seq<u8>, position: int, lv: LloydMaxVector)
    requires
        index.store().readable(file, position),
        index.store().holds(index.store().record_at(file, position), lv),
    ensures
        index.can_read_at(file, position) == index.compression().quantizer().readable(lv.scalar),
{
    let q = index.compression().quantizer();
    assert forall|other: LloydMaxVector| #[trigger]
        index.store().holds(index.store().record_at(file, position), other) implies q.readable(other.scalar)
        == q.readable(lv.scalar) by {
        law_record_determines(other.stored(), lv.stored());
        assert(other.scalar.data@ == lv.scalar.data@);
    }
}

proof fn lemma_unreadable(index: TurboIndex, file: Seq<u8>, i: int)
    requires
        0 <= i < index.identifiers().len(),
        !index.removed().contains(index.identifiers()[i]),
        !index.can_read_at(file, i),
    ensures
        !index.can_read(file),
{
    lemma_live(index.identifiers(), index.removed());
    assert(index.live_positions().contains(i));
    let k = choose|k: int| 0 <= k < index.live_positions().len() && index.live_positions()[k] == i;
    assert(!index.can_read_at(file, index.live_positions()[k]));
}

/// Where the parts agree, the vectors can be read if the file has their records.
pub proof fn lemma_matched_reads(index: TurboIndex, file: Seq<u8>)
    requires
        index.matched(),
        index.backed_by(file),
    ensures
        index.can_read(file),
{
    let q = index.compression().quantizer();
    assert forall|k: int| 0 <= k < index.live_positions().len() implies index.can_read_at(
        file,
        #[trigger] index.live_positions()[k],
    ) by {
        let at = index.live_positions()[k];
        assert forall|lv: LloydMaxVector| #[trigger]
            index.store().holds(index.store().record_at(file, at), lv) implies q.readable(lv.scalar) by {
            lemma_stored_readable(q, lv.scalar);
        }
    }
}

proof fn lemma_push_to_set(s: Seq<u64>, x: u64)
    ensures
        s.push(x).to_set() == s.to_set().insert(x),
{
    let t = s.push(x);
    assert forall|y: u64| t.to_set().contains(y) <==> s.to_set().insert(x).contains(y) by {
        if s.contains(y) {
            let k = choose|k: int| 0 <= k < s.len() && s[k] == y;
            assert(t[k] == y);
        }
        if y == x {
            assert(t[s.len() as int] == x);
        }
        if t.contains(y) {
            let k = choose|k: int| 0 <= k < t.len() && t[k] == y;
            if k < s.len() {
                assert(s[k] == y);
            }
        }
    }
    assert(t.to_set() =~= s.to_set().insert(x));
}

/// A deleted vector is not found, and every vector found has been inserted.
pub proof fn law_deleted_not_found(index: TurboIndex, scores: Seq<Scalar>, top_k: int, results: Seq<SearchResult>)
    requires
        scores.len() == index.live_positions().len(),
        index.are_best(scores, top_k, results),
    ensures
        forall|j: int|
            0 <= j < results.len() ==> !index.removed().contains((#[trigger] results[j]).id)
                && index.identifiers().contains(results[j].id),
{
    lemma_live(index.identifiers(), index.removed());
    let picks = choose|picks: Seq<usize>| #[trigger]
        is_leading(TurboIndex::score_keys(scores), picks, top_k) && results == picks.map_values(
            |k: usize|
                SearchResult {
                    id: index.identifiers()[index.live_positions()[k as int]],
                    score: scores[k as int],
                },
        );
    assert forall|j: int| 0 <= j < results.len() implies !index.removed().contains((#[trigger] results[j]).id)
        && index.identifiers().contains(results[j].id) by {
        let p = index.live_positions()[picks[j] as int];
        assert(results[j].id == index.identifiers()[p]);
    }
}

/// As many vectors are found as were asked for, or all that there are. They come from the
/// highest score on, and no vector that was left out has a higher score than one found.
pub proof fn law_best_first(index: TurboIndex, scores: Seq<Scalar>, top_k: int, results: Seq<SearchResult>)
    requires
        scores.len() == index.live_positions().len(),
        index.are_best(scores, top_k, results),
        scores.len() <= usize::MAX,
        forall|k: int| 0 <= k < scores.len() ==> !(#[trigger] scores[k]).nan(),
    ensures
        results.len() == if top_k < scores.len() {
            top_k
        } else {
            scores.len() as int
        },
        forall|i: int, j: int|
            0 <= i < j < results.len() ==> (#[trigger] results[i]).score.at_least((#[trigger] results[j]).score),
        forall|k: int, j: int|
            0 <= k < scores.len() && 0 <= j < results.len() && (#[trigger] scores[k]).greater(
                (#[trigger] results[j]).score,
            ) ==> exists|i: int|
                0 <= i < results.len() && (#[trigger] results[i]).score == scores[k] && results[i].id
                    == index.identifiers()[index.live_positions()[k]],
{
    let keys = TurboIndex::score_keys(scores);
    let picks = choose|picks: Seq<usize>| #[trigger]
        is_leading(keys, picks, top_k) && results == picks.map_values(
            |k: usize|
                SearchResult {
                    id: index.identifiers()[index.live_positions()[k as int]],
                    score: scores[k as int],
                },
        );
    assert forall|i: int, j: int| 0 <= i < j < results.len() implies (#[trigger] results[i]).score.at_least(
        (#[trigger] results[j]).score,
    ) by {
        let (a, b) = (scores[picks[i] as int], scores[picks[j] as int]);
        assert(precedes(keys, picks[i] as int, picks[j] as int));
        lemma_descending_key(a, b);
        assert(a.descending_key() <= b.descending_key());
    }
    assert forall|k: int, j: int|
        0 <= k < scores.len() && 0 <= j < results.len() && (#[trigger] scores[k]).greater(
            (#[trigger] results[j]).score,
        ) implies exists|i: int|
        0 <= i < results.len() && (#[trigger] results[i]).score == scores[k] && results[i].id
            == index.identifiers()[index.live_positions()[k]] by {
        let m = k as usize;
        lemma_descending_key(scores[k], scores[picks[j] as int]);
        assert(keys[k] < keys[picks[j] as int]);
        if !picks.contains(m) {
            assert(precedes(keys, picks[j] as int, m as int));
        }
        let i = choose|i: int| 0 <= i < picks.len() && picks[i] == m;
        assert(results[i].score == scores[k]);
    }
}

/// Opening the files of an index gives that index back: its identifiers, what is deleted,
/// its seeds and its storage.
pub proof fn law_open_gives_index_back(
    index: TurboIndex,
    meta: Seq<u8>,
    storage: Seq<u8>,
    m: MetaFields,
    opened: TurboIndex,
)
    requires
        index.saved_as(meta),
        index.store().in_step(storage),
        meta.len() <= u64::MAX,
        encoded_meta(m).is_prefix_of(meta),
        opened.loaded_from(m),
        opened.store().described_by(storage),
    ensures
        opened.identifiers() == index.identifiers(),
        opened.removed() == index.removed(),
        opened.next() == index.next(),
        opened.dimension() == index.dimension(),
        opened.width() == index.width(),
        opened.seeds() == index.seeds(),
        opened.store() == index.store(),
        opened.live_positions() == index.live_positions(),
{
    let written = choose|written: MetaFields|
        index.described_by(written) && meta == #[trigger] encoded_meta(written);
    law_meta_unique(written, m, meta);
    law_open_gives_back(index.store(), storage, opened.store());
}

/// An insert adds the record of its vector and leaves the other records as they are. The
/// vector is live unless its identifier counts as deleted.
pub proof fn law_insert_adds(
    before: TurboIndex,
    file: Seq<u8>,
    id: u64,
    v: StoredVector,
    w: Appended,
    after: TurboIndex,
)
    requires
        before.store().in_step(file),
        before.identifiers().len() == before.store().count(),
        appends(before.store(), v, after.store(), w),
        after.identifiers() == before.identifiers().push(id),
        after.removed() == before.removed(),
    ensures
        after.store().in_step(w.written_to(file)),
        after.store().record_at(w.written_to(file), before.identifiers().len() as int) == record(v),
        forall|i: int|
            0 <= i < before.identifiers().len() ==> #[trigger] after.store().record_at(w.written_to(file), i)
                == before.store().record_at(file, i),
        after.live_positions() == (if before.removed().contains(id) {
            before.live_positions()
        } else {
            before.live_positions().push(before.identifiers().len() as int)
        }),
{
    law_append_extends(before.store(), file, v, after.store(), w);
    assert(after.identifiers().drop_last() =~= before.identifiers());
}

/// A delete hides the vectors with its identifier, and no others.
pub proof fn law_delete_hides(before: TurboIndex, id: u64, after: TurboIndex)
    requires
        after.identifiers() == before.identifiers(),
        after.removed() == before.removed().insert(id),
    ensures
        forall|i: int|
            #![trigger after.live_positions().contains(i)]
            #![trigger before.live_positions().contains(i)]
            after.live_positions().contains(i) <==> before.live_positions().contains(i) && before.identifiers()[i]
                != id,
{
    lemma_live(before.identifiers(), before.removed());
    lemma_live(after.identifiers(), after.removed());
}

proof fn lemma_all_live(ids: Seq<u64>)
    ensures
        live(ids, Set::empty()) == Seq::new(ids.len(), |i: int| i),
    decreases ids.len(),
{
    if ids.len() > 0 {
        lemma_all_live(ids.drop_last());
    }
    assert(live(ids, Set::empty()) =~= Seq::new(ids.len(), |i: int| i));
}

/// A compaction changes no search: every live vector has the scores that it had, and the best
/// of any scores are the same.
pub proof fn law_compact_keeps_results<
    T: Fn(&[Scalar], &[Scalar]) -> Scalar,
    F: Fn(Scalar, bool, Scalar) -> Scalar,
    G: Fn(Scalar, Scalar) -> Scalar,
    H: Fn(Scalar, Scalar, Scalar) -> Scalar,
>(
    before: TurboIndex,
    old_file: Seq<u8>,
    after: TurboIndex,
    new_file: Seq<u8>,
    q: PreparedQuery,
    dot: T,
    step: F,
    scale: G,
    finish: H,
)
    requires
        before.matched(),
        after.matched(),
        after.dimension() == before.dimension(),
        after.width() == before.width(),
        after.compression() == before.compression(),
        after.removed() == Set::<u64>::empty(),
        after.identifiers() == before.live_identifiers(),
        forall|k: int|
            0 <= k < before.live_positions().len() ==> #[trigger] after.store().record_at(new_file, k)
                == before.store().record_at(old_file, before.live_positions()[k]),
    ensures
        after.live_positions().len() == before.live_positions().len(),
        forall|k: int, score: Scalar|
            0 <= k < before.live_positions().len() ==> #[trigger] after.scored(
                q,
                new_file,
                after.live_positions()[k],
                dot,
                step,
                scale,
                finish,
                score,
            ) == before.scored(q, old_file, before.live_positions()[k], dot, step, scale, finish, score),
        forall|scores: Seq<Scalar>, top_k: int, results: Seq<SearchResult>|
            scores.len() == before.live_positions().len() ==> #[trigger] after.are_best(scores, top_k, results)
                == before.are_best(scores, top_k, results),
{
    lemma_all_live(after.identifiers());
    assert forall|k: int, score: Scalar| 0 <= k < before.live_positions().len() implies #[trigger] after.scored(
        q,
        new_file,
        after.live_positions()[k],
        dot,
        step,
        scale,
        finish,
        score,
    ) == before.scored(q, old_file, before.live_positions()[k], dot, step, scale, finish, score) by {
        assert(after.live_positions()[k] == k);
        let data = after.store().record_at(new_file, k);
        assert forall|lv: LloydMaxVector| after.store().holds(data, lv) == #[trigger] before.store().holds(data, lv) by {}
    }
    assert forall|scores: Seq<Scalar>, top_k: int, results: Seq<SearchResult>|
        scores.len() == before.live_positions().len() implies #[trigger] after.are_best(scores, top_k, results)
        == before.are_best(scores, top_k, results) by {
        assert forall|picks: Seq<usize>| #[trigger]
            is_leading(TurboIndex::score_keys(scores), picks, top_k) implies picks.map_values(
            |k: usize|
                SearchResult { id: after.identifiers()[after.live_positions()[k as int]], score: scores[k as int] },
        ) == picks.map_values(
            |k: usize|
                SearchResult { id: before.identifiers()[before.live_positions()[k as int]], score: scores[k as int] },
        ) by {
            assert(picks.map_values(
                |k: usize|
                    SearchResult { id: after.identifiers()[after.live_positions()[k as int]], score: scores[k as int] },
            ) =~= picks.map_values(
                |k: usize|
                    SearchResult {
                        id: before.identifiers()[before.live_positions()[k as int]],
                        score: scores[k as int],
                    },
            ));
        }
    }
}

} // verus!
