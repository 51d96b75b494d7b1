//! Storage of compressed vectors.
//!
//! A storage is a file of this layout:
//!
//! | bytes | content                                                             |
//! |-------|---------------------------------------------------------------------|
//! | 16    | header: magic, version, number of vectors, bytes of a record        |
//! | 5     | dimension, bits of an index                                         |
//! | rest  | the records, one after the other                                    |
//!
//! A record holds the vector's norm, the residual's norm, the packed indices
//! and the sign bits. Numbers are little-endian. The functions here work on the
//! contents of the file; reading and writing it belongs to the caller.
use crate::bytes::{
    law_le_of_number, law_number_of_le, le, lemma_le_len, lemma_reach, number, push_u32, read_u32,
};
use crate::compression::bitstream::{law_packed_len, packed_len};
use crate::compression::lloyd_max::ScalarQuantVector;
use crate::compression::qjl::BitVector;
use crate::error::TurboError;
use crate::scalar::Scalar;
use crate::turboquant::LloydMaxVector;
use vstd::prelude::*;

verus! {

/// The number of bytes of the header.
pub const HEADER_SIZE: usize = 16;

/// The number of bytes between the header and the first record.
pub const METADATA_SIZE: usize = 5;

/// What every storage file starts with: "TQLM".
pub open spec fn magic_bytes() -> Seq<u8> {
    seq![0x54, 0x51, 0x4c, 0x4d]
}

/// The start of a storage file.
#[derive(Clone, Copy, Debug)]
pub struct IndexHeader {
    pub magic: [u8; 4],
    pub version: u32,
    pub num_vectors: u32,
    pub bytes_per_vector: u32,
}

impl IndexHeader {
    /// The header's bytes.
    pub open spec fn encoded(&self) -> Seq<u8> {
        self.magic@ + le(self.version as nat, 4) + le(self.num_vectors as nat, 4) + le(self.bytes_per_vector as nat, 4)
    }

    /// The header's bytes.
    pub fn to_bytes(&self) -> (r: Vec<u8>)
        ensures
            r@ == self.encoded(),
            r@.len() == HEADER_SIZE,
    {
        let mut buf: Vec<u8> = Vec::with_capacity(HEADER_SIZE);
        buf.push(self.magic[0]);
        buf.push(self.magic[1]);
        buf.push(self.magic[2]);
        buf.push(self.magic[3]);
        assert(buf@ =~= self.magic@);
        push_u32(&mut buf, self.version);
        push_u32(&mut buf, self.num_vectors);
        push_u32(&mut buf, self.bytes_per_vector);
        proof {
            lemma_le_len(self.version as nat, 4);
            lemma_le_len(self.num_vectors as nat, 4);
            lemma_le_len(self.bytes_per_vector as nat, 4);
        }
        buf
    }

    /// The header with the given bytes.
    pub fn from_bytes(buf: &[u8]) -> (r: IndexHeader)
        requires
            buf@.len() >= HEADER_SIZE,
        ensures
            r.encoded() == buf@.take(HEADER_SIZE as int),
    {
        let r = IndexHeader {
            magic: [buf[0], buf[1], buf[2], buf[3]],
            version: read_u32(buf, 4),
            num_vectors: read_u32(buf, 8),
            bytes_per_vector: read_u32(buf, 12),
        };
        proof {
            law_le_of_number(buf@.subrange(4, 8));
            law_le_of_number(buf@.subrange(8, 12));
            law_le_of_number(buf@.subrange(12, 16));
            assert(r.magic@ =~= buf@.subrange(0, 4));
            assert(r.encoded() =~= buf@.take(16));
        }
        r
    }
}

/// Headers with the same bytes are equal.
pub proof fn law_header_from_bytes(a: IndexHeader, b: IndexHeader)
    requires
        a.encoded() == b.encoded(),
    ensures
        a == b,
{
    lemma_reach();
    let (x, y) = (a.encoded(), b.encoded());
    law_number_of_le(a.version as nat, 4);
    law_number_of_le(b.version as nat, 4);
    law_number_of_le(a.num_vectors as nat, 4);
    law_number_of_le(b.num_vectors as nat, 4);
    law_number_of_le(a.bytes_per_vector as nat, 4);
    law_number_of_le(b.bytes_per_vector as nat, 4);
    assert(a.magic@ =~= x.subrange(0, 4));
    assert(b.magic@ =~= x.subrange(0, 4));
    assert(le(a.version as nat, 4) =~= x.subrange(4, 8));
    assert(le(b.version as nat, 4) =~= x.subrange(4, 8));
    assert(le(a.num_vectors as nat, 4) =~= x.subrange(8, 12));
    assert(le(b.num_vectors as nat, 4) =~= x.subrange(8, 12));
    assert(le(a.bytes_per_vector as nat, 4) =~= x.subrange(12, 16));
    assert(le(b.bytes_per_vector as nat, 4) =~= x.subrange(12, 16));
    assert(a.magic =~= b.magic);
}

/// What a record holds of a vector.
#[verifier::ext_equal]
pub struct StoredVector {
    pub original_norm: u32,
    pub residual_norm: u32,
    pub indices: Seq<u8>,
    pub signs: Seq<u8>,
}

impl LloydMaxVector {
    /// What a record holds of the vector.
    pub open spec fn stored(&self) -> StoredVector {
        StoredVector {
            original_norm: self.original_norm.bits,
            residual_norm: self.residual_norm.bits,
            indices: self.scalar.data@,
            signs: self.residual_signs.0@,
        }
    }
}

/// The bytes of a record.
pub open spec fn record(v: StoredVector) -> Seq<u8> {
    le(v.original_norm as nat, 4) + le(v.residual_norm as nat, 4) + v.indices + v.signs
}

/// The number of bytes of a record of a vector.
pub open spec fn record_size(dim: int, bits: int) -> int {
    8 + packed_len(dim, bits) + packed_len(dim, 1)
}

/// A record has eight bytes of norms, the indices and the signs.
pub proof fn lemma_record_len(v: StoredVector)
    ensures
        record(v).len() == 8 + v.indices.len() + v.signs.len(),
{
    lemma_le_len(v.original_norm as nat, 4);
    lemma_le_len(v.residual_norm as nat, 4);
}

/// A record determines what it holds, given how many bytes of it are indices.
pub proof fn law_record_determines(a: StoredVector, b: StoredVector)
    requires
        record(a) == record(b),
        a.indices.len() == b.indices.len(),
    ensures
        a == b,
{
    lemma_reach();
    lemma_record_len(a);
    lemma_record_len(b);
    law_number_of_le(a.original_norm as nat, 4);
    law_number_of_le(b.original_norm as nat, 4);
    law_number_of_le(a.residual_norm as nat, 4);
    law_number_of_le(b.residual_norm as nat, 4);
    let x = record(a);
    let n = 8 + a.indices.len();
    assert(le(a.original_norm as nat, 4) =~= x.subrange(0, 4));
    assert(le(b.original_norm as nat, 4) =~= x.subrange(0, 4));
    assert(le(a.residual_norm as nat, 4) =~= x.subrange(4, 8));
    assert(le(b.residual_norm as nat, 4) =~= x.subrange(4, 8));
    assert(a.indices =~= x.subrange(8, n as int));
    assert(b.indices =~= x.subrange(8, n as int));
    assert(a.signs =~= x.skip(n as int));
    assert(b.signs =~= x.skip(n as int));
}

/// What has to be written to a storage file to add a vector.
pub struct Appended {
    /// The bytes to add at the end of the file.
    pub record: Vec<u8>,
    /// The bytes to put at the start of the file, in place of those there.
    pub header: Vec<u8>,
}

impl Appended {
    /// The contents of a file after both writes.
    pub open spec fn written_to(&self, file: Seq<u8>) -> Seq<u8> {
        self.header@ + file.skip(self.header@.len() as int) + self.record@
    }

    /// Makes both writes to contents held in memory.
    pub fn apply(&self, file: &mut Vec<u8>)
        requires
            self.header@.len() <= old(file)@.len(),
        ensures
            final(file)@ == self.written_to(old(file)@),
    {
        let ghost before = file@;
        let mut i: usize = 0;
        while i < self.record.len()
            invariant
                i <= self.record@.len(),
                file@ =~= before + self.record@.take(i as int),
            decreases self.record@.len() - i,
        {
            file.push(self.record[i]);
            i = i + 1;
        }
        let mut k: usize = 0;
        while k < self.header.len()
            invariant
                k <= self.header@.len() <= before.len(),
                file@ =~= self.header@.take(k as int) + before.skip(k as int) + self.record@,
            decreases self.header@.len() - k,
        {
            file.set(k, self.header[k]);
            k = k + 1;
        }
        assert(file@ =~= self.written_to(before));
    }
}

/// The state of a storage beside its file.
pub struct VectorStorage {
    header: IndexHeader,
    dim: usize,
    bits: u8,
}

impl VectorStorage {
    /// The header that the file starts with.
    pub closed spec fn start(&self) -> IndexHeader {
        self.header
    }

    /// The dimension of the vectors.
    pub closed spec fn dimension(&self) -> usize {
        self.dim
    }

    /// The number of bits of an index.
    pub closed spec fn width(&self) -> u8 {
        self.bits
    }

    /// The number of vectors.
    pub open spec fn count(&self) -> int {
        self.start().num_vectors as int
    }

    /// The number of bytes of a record, as the header has it.
    pub open spec fn stride(&self) -> int {
        self.start().bytes_per_vector as int
    }

    /// The header and what follows it up to the first record.
    pub open spec fn preamble(&self) -> Seq<u8> {
        self.start().encoded() + le(self.dimension() as nat, 4) + seq![self.width()]
    }

    /// The header is that of a storage of this layout, and records have the size that the
    /// dimension and the width give.
    pub open spec fn wf(&self) -> bool {
        &&& self.start().magic@ == magic_bytes()
        &&& self.dimension() <= u32::MAX
        &&& self.stride() == record_size(self.dimension() as int, self.width() as int)
        &&& self.dimension() * self.width() <= usize::MAX - 7
        &&& self.dimension() <= usize::MAX - 7
    }

    /// The file holds the preamble and as many records as the header says.
    pub open spec fn in_step(&self, file: Seq<u8>) -> bool {
        &&& self.wf()
        &&& file.len() == 21 + self.count() * self.stride()
        &&& file.take(21) == self.preamble()
    }

    /// The file has the bytes of records up to and including `idx`, and a record has room for
    /// a vector.
    pub open spec fn readable(&self, file: Seq<u8>, idx: int) -> bool {
        &&& self.dimension() * self.width() <= usize::MAX - 7
        &&& self.dimension() <= usize::MAX - 7
        &&& record_size(self.dimension() as int, self.width() as int) <= self.stride()
        &&& 21 + (idx + 1) * self.stride() <= file.len()
    }

    /// The bytes of record `idx`.
    pub open spec fn record_at(&self, file: Seq<u8>, idx: int) -> Seq<u8> {
        file.subrange(21 + idx * self.stride(), 21 + (idx + 1) * self.stride())
    }

    /// `v` is what the bytes of a record hold, and is of the storage's dimension and width.
    pub open spec fn holds(&self, data: Seq<u8>, v: LloydMaxVector) -> bool {
        &&& v.scalar.dim == self.dimension()
        &&& v.scalar.bits == self.width()
        &&& v.stored().indices.len() == packed_len(self.dimension() as int, self.width() as int)
        &&& v.stored().signs.len() == packed_len(self.dimension() as int, 1)
        &&& data.take(record_size(self.dimension() as int, self.width() as int)) == record(v.stored())
    }

    /// The number of bytes of a record, reduced to the width of the header's field.
    pub fn compute_bpv(dim: usize, bits: u8) -> (r: u32)
        requires
            dim * bits <= usize::MAX - 7,
            dim <= usize::MAX - 7,
        ensures
            r == record_size(dim as int, bits as int) % 0x1_0000_0000,
    {
        let index_bytes: usize = (dim * bits as usize + 7) / 8;
        let sign_bytes: usize = (dim + 7) / 8;
        let total: usize = 8 + index_bytes + sign_bytes;
        (total as u64 % 0x1_0000_0000) as u32
    }

    /// A storage without vectors, and the contents of its file.
    pub fn create(dim: usize, bits: u8) -> (r: (VectorStorage, Vec<u8>))
        requires
            dim * bits <= usize::MAX - 7,
            dim <= usize::MAX - 7,
        ensures
            r.0.start().magic@ == magic_bytes(),
            r.0.start().version == 1,
            r.0.count() == 0,
            r.0.stride() == record_size(dim as int, bits as int) % 0x1_0000_0000,
            r.0.dimension() == dim,
            r.0.width() == bits,
            r.1@ == r.0.start().encoded() + le(dim as nat % 0x1_0000_0000, 4) + seq![bits],
            dim <= u32::MAX && record_size(dim as int, bits as int) <= u32::MAX ==> r.0.in_step(r.1@),
    {
        let header = IndexHeader {
            magic: [0x54, 0x51, 0x4c, 0x4d],
            version: 1,
            num_vectors: 0,
            bytes_per_vector: Self::compute_bpv(dim, bits),
        };
        assert(header.magic@ =~= magic_bytes());
        let mut image: Vec<u8> = header.to_bytes();
        push_u32(&mut image, (dim as u64 % 0x1_0000_0000) as u32);
        image.push(bits);
        let storage = VectorStorage { header, dim, bits };
        proof {
            lemma_le_len(dim as nat % 0x1_0000_0000, 4);
            assert(image@ =~= header.encoded() + le(dim as nat % 0x1_0000_0000, 4) + seq![bits]);
            assert(image@.take(21) =~= image@);
            if dim <= u32::MAX && record_size(dim as int, bits as int) <= u32::MAX {
                assert(dim as nat % 0x1_0000_0000 == dim as nat);
                assert(image@ =~= storage.preamble());
                let (n, stride) = (storage.count(), storage.stride());
                assert(n * stride == 0) by (nonlinear_arith)
                    requires
                        n == 0,
                ;
                assert(storage.in_step(image@));
            }
        }
        (storage, image)
    }

    /// The storage is the one that the file's preamble describes.
    pub open spec fn described_by(&self, file: Seq<u8>) -> bool {
        &&& self.start().encoded() == file.take(16)
        &&& self.dimension() == number(file.subrange(16, 20))
        &&& self.width() == file[20]
    }

    /// The storage of an existing file.
    pub fn open(file: &[u8]) -> (r: Result<VectorStorage, TurboError>)
        ensures
            match r {
                Ok(s) => file@.len() >= 21 && file@.take(4) == magic_bytes() && s.described_by(file@),
                Err(TurboError::Io(m)) => {
                    &&& m@ == "failed to fill whole buffer"@
                    &&& file@.len() < 16 || (file@.take(4) == magic_bytes() && file@.len() < 21)
                },
                Err(TurboError::Storage(m)) => {
                    &&& m@ == "invalid magic for TurboQuant Lloyd-Max file"@
                    &&& file@.len() >= 16 && file@.take(4) != magic_bytes()
                },
                Err(_) => false,
            },
    {
        if file.len() < HEADER_SIZE {
            return Err(TurboError::Io(String::from_str("failed to fill whole buffer")));
        }
        let header = IndexHeader::from_bytes(file);
        proof {
            assert(header.magic@ =~= header.encoded().take(4));
            assert(file@.take(4) =~= file@.take(16).take(4));
        }
        if header.magic[0] != 0x54 || header.magic[1] != 0x51 || header.magic[2] != 0x4c || header.magic[3] != 0x4d {
            return Err(TurboError::Storage(String::from_str("invalid magic for TurboQuant Lloyd-Max file")));
        }
        assert(header.magic@ =~= magic_bytes());
        if file.len() < HEADER_SIZE + METADATA_SIZE {
            return Err(TurboError::Io(String::from_str("failed to fill whole buffer")));
        }
        let dim: usize = read_u32(file, 16) as usize;
        let bits: u8 = file[20];
        Ok(VectorStorage { header, dim, bits })
    }

    /// Where the first record starts.
    pub fn data_offset(&self) -> (r: usize)
        ensures
            r == 21,
    {
        HEADER_SIZE + METADATA_SIZE
    }

    /// The record of a vector.
    pub fn serialize(&self, lv: &LloydMaxVector) -> (r: Vec<u8>)
        ensures
            r@ == record(lv.stored()),
    {
        let mut buf: Vec<u8> = Vec::new();
        push_u32(&mut buf, lv.original_norm.to_bits());
        push_u32(&mut buf, lv.residual_norm.to_bits());
        buf.extend_from_slice(lv.scalar.data.as_slice());
        buf.extend_from_slice(lv.residual_signs.0.as_slice());
        assert(buf@ =~= record(lv.stored()));
        buf
    }

    /// The vector that a record holds.
    pub fn deserialize(&self, data: &[u8]) -> (r: LloydMaxVector)
        requires
            self.dimension() * self.width() <= usize::MAX - 7,
            self.dimension() <= usize::MAX - 7,
            record_size(self.dimension() as int, self.width() as int) <= data@.len(),
        ensures
            self.holds(data@, r),
    {
        let original_norm: u32 = read_u32(data, 0);
        let residual_norm: u32 = read_u32(data, 4);
        let index_bytes: usize = (self.dim * self.bits as usize + 7) / 8;
        let sign_bytes: usize = (self.dim + 7) / 8;
        let packed_indices: Vec<u8> = copy_range(data, 8, 8 + index_bytes);
        let residual_signs: Vec<u8> = copy_range(data, 8 + index_bytes, 8 + index_bytes + sign_bytes);
        let r = LloydMaxVector {
            scalar: ScalarQuantVector { data: packed_indices, dim: self.dim, bits: self.bits },
            residual_signs: BitVector(residual_signs),
            residual_norm: Scalar::from_bits(residual_norm),
            original_norm: Scalar::from_bits(original_norm),
        };
        proof {
            law_le_of_number(data@.subrange(0, 4));
            law_le_of_number(data@.subrange(4, 8));
            assert(record(r.stored()) =~= data@.take(record_size(self.dim as int, self.bits as int)));
        }
        r
    }

    /// Adds a vector. What has to be written to the file is given back; nothing is changed
    /// where the vector's record has not the size of the storage's records.
    pub fn append(&mut self, lv: &LloydMaxVector) -> (r: Result<Appended, TurboError>)
        requires
            lv.size() <= usize::MAX,
            lv.size() == old(self).stride() ==> old(self).count() < u32::MAX,
        ensures
            final(self).dimension() == old(self).dimension(),
            final(self).width() == old(self).width(),
            match r {
                Ok(w) => {
                    &&& lv.size() == old(self).stride()
                    &&& w.record@ == record(lv.stored())
                    &&& final(self).start() == (IndexHeader {
                        num_vectors: (old(self).count() + 1) as u32,
                        ..old(self).start()
                    })
                    &&& w.header@ == final(self).start().encoded()
                },
                Err(e) => {
                    &&& lv.size() != old(self).stride()
                    &&& final(self).start() == old(self).start()
                    &&& e == (TurboError::DimensionMismatch {
                        expected: old(self).stride() as usize,
                        got: lv.size() as usize,
                    })
                },
            },
    {
        let data: Vec<u8> = self.serialize(lv);
        let expected: usize = self.header.bytes_per_vector as usize;
        proof {
            lemma_record_len(lv.stored());
        }
        if data.len() != expected {
            return Err(TurboError::DimensionMismatch { expected, got: data.len() });
        }
        self.header = IndexHeader {
            magic: self.header.magic,
            version: self.header.version,
            num_vectors: self.header.num_vectors + 1,
            bytes_per_vector: self.header.bytes_per_vector,
        };
        Ok(Appended { record: data, header: self.header.to_bytes() })
    }

    /// The vector at a position.
    pub fn get(&self, file: &[u8], idx: usize) -> (r: LloydMaxVector)
        requires
            self.readable(file@, idx as int),
        ensures
            self.holds(self.record_at(file@, idx as int), r),
    {
        let bpv: usize = self.header.bytes_per_vector as usize;
        proof {
            lemma_offsets(idx as int, bpv as int);
            assert(file@.len() == file.len());
        }
        let offset: usize = self.data_offset() + idx * bpv;
        let buf: Vec<u8> = copy_range(file, offset, offset + bpv);
        self.deserialize(buf.as_slice())
    }

    /// All vectors, in the order in which they were added.
    pub fn get_all(&self, file: &[u8]) -> (r: Vec<LloydMaxVector>)
        requires
            self.count() > 0 ==> self.readable(file@, self.count() - 1),
        ensures
            r@.len() == self.count(),
            forall|i: int| 0 <= i < r@.len() ==> self.holds(self.record_at(file@, i), #[trigger] r@[i]),
    {
        let n: usize = self.header.num_vectors as usize;
        let mut all: Vec<LloydMaxVector> = Vec::with_capacity(n);
        let mut i: usize = 0;
        while i < n
            invariant
                n == self.count(),
                i <= n,
                self.count() > 0 ==> self.readable(file@, self.count() - 1),
                all@.len() == i,
                forall|k: int| 0 <= k < i ==> self.holds(self.record_at(file@, k), #[trigger] all@[k]),
            decreases n - i,
        {
            proof {
                lemma_records_before(i as int, n as int, self.stride());
            }
            all.push(self.get(file, i));
            i = i + 1;
        }
        all
    }

    /// Whether the file has the bytes of every record that the header counts, and a record
    /// has room for a vector.
    pub fn is_readable(&self, file: &[u8]) -> (r: bool)
        ensures
            r == (self.count() == 0 || self.readable(file@, self.count() - 1)),
    {
        self.has_records(file, self.header.num_vectors as usize)
    }

    /// Whether the file has the bytes of the first `n` records, and a record has room for a
    /// vector.
    pub fn has_records(&self, file: &[u8], n: usize) -> (r: bool)
        ensures
            r == (n == 0 || self.readable(file@, n - 1)),
    {
        if n == 0 {
            return true;
        }
        let max: u128 = usize::MAX as u128 - 7;
        let dim: u128 = self.dim as u128;
        proof {
            let (d, b) = (self.dim as int, self.bits as int);
            assert(0 <= d * b <= 0xffff_ffff_ffff_ffff * 255) by (nonlinear_arith)
                requires
                    0 <= d <= 0xffff_ffff_ffff_ffff,
                    0 <= b <= 255,
            ;
            let s = self.header.bytes_per_vector as int;
            assert(0 <= n * s <= 0xffff_ffff_ffff_ffff * 0xffff_ffff) by (nonlinear_arith)
                requires
                    0 <= n <= 0xffff_ffff_ffff_ffff,
                    0 <= s <= 0xffff_ffff,
            ;
        }
        let bits_total: u128 = dim * self.bits as u128;
        let size: u128 = 8 + (bits_total + 7) / 8 + (dim + 7) / 8;
        let end: u128 = 21 + n as u128 * self.header.bytes_per_vector as u128;
        bits_total <= max && dim <= max && size <= self.header.bytes_per_vector as u128 && end <= file.len() as u128
    }

    /// The dimension of the vectors.
    pub fn dim(&self) -> (r: usize)
        ensures
            r == self.dimension(),
    {
        self.dim
    }

    /// The width of a quantization index.
    pub fn bits(&self) -> (r: u8)
        ensures
            r == self.width(),
    {
        self.bits
    }

    /// The number of vectors.
    pub fn len(&self) -> (r: usize)
        ensures
            r == self.count(),
    {
        self.header.num_vectors as usize
    }

    /// Whether there is no vector.
    pub fn is_empty(&self) -> (r: bool)
        ensures
            r == (self.count() == 0),
    {
        self.header.num_vectors == 0
    }

    /// The number of bytes of a record.
    pub fn bytes_per_vector(&self) -> (r: usize)
        ensures
            r == self.stride(),
    {
        self.header.bytes_per_vector as usize
    }
}

/// A storage is determined by its header, its dimension and its width.
pub proof fn lemma_same_storage(a: VectorStorage, b: VectorStorage)
    requires
        a.start() == b.start(),
        a.dimension() == b.dimension(),
        a.width() == b.width(),
    ensures
        a == b,
{
}

proof fn lemma_offsets(idx: int, stride: int)
    requires
        0 <= idx,
        0 <= stride,
    ensures
        0 <= idx * stride,
        (idx + 1) * stride == idx * stride + stride,
{
    assert(0 <= idx * stride && (idx + 1) * stride == idx * stride + stride) by (nonlinear_arith)
        requires
            0 <= idx,
            0 <= stride,
    ;
}

proof fn lemma_records_before(i: int, n: int, stride: int)
    requires
        0 <= i < n,
        0 <= stride,
    ensures
        0 <= i * stride,
        (i + 1) * stride == i * stride + stride,
        (i + 1) * stride <= n * stride,
{
    assert(0 <= i * stride && (i + 1) * stride == i * stride + stride && (i + 1) * stride <= n * stride)
        by (nonlinear_arith)
        requires
            0 <= i < n,
            0 <= stride,
    ;
}

fn copy_range(data: &[u8], from: usize, to: usize) -> (r: Vec<u8>)
    requires
        from <= to <= data@.len(),
    ensures
        r@ == data@.subrange(from as int, to as int),
{
    let mut r: Vec<u8> = Vec::with_capacity(to - from);
    let mut i: usize = from;
    while i < to
        invariant
            from <= i <= to <= data@.len(),
            r@ =~= data@.subrange(from as int, i as int),
        decreases to - i,
    {
        r.push(data[i]);
        i = i + 1;
    }
    r
}

/// `after` and `w` are what an append of `v` makes of `before`.
pub open spec fn appends(before: VectorStorage, v: StoredVector, after: VectorStorage, w: Appended) -> bool {
    &&& record(v).len() == before.stride()
    &&& before.count() < u32::MAX
    &&& after.dimension() == before.dimension()
    &&& after.width() == before.width()
    &&& after.start() == (IndexHeader { num_vectors: (before.count() + 1) as u32, ..before.start() })
    &&& w.record@ == record(v)
    &&& w.header@ == after.start().encoded()
}

proof fn lemma_header_len(h: IndexHeader)
    ensures
        h.encoded().len() == 16,
{
    lemma_le_len(h.version as nat, 4);
    lemma_le_len(h.num_vectors as nat, 4);
    lemma_le_len(h.bytes_per_vector as nat, 4);
}

/// A file in step holds at least the preamble.
pub proof fn lemma_preamble_len(s: VectorStorage)
    ensures
        s.start().encoded().len() == 16,
        s.count() >= 0 && s.stride() >= 0 ==> s.count() * s.stride() >= 0,
{
    lemma_header_len(s.start());
    lemma_offsets(s.count(), s.stride());
}

/// Writing what an append gives back keeps the file in step with the storage. The records
/// from before stay, and the new one follows them.
pub proof fn law_append_extends(
    before: VectorStorage,
    file: Seq<u8>,
    v: StoredVector,
    after: VectorStorage,
    w: Appended,
)
    requires
        before.in_step(file),
        appends(before, v, after, w),
    ensures
        after.in_step(w.written_to(file)),
        forall|i: int|
            0 <= i < before.count() ==> #[trigger] after.record_at(w.written_to(file), i) == before.record_at(file, i),
        after.record_at(w.written_to(file), before.count()) == record(v),
{
    let n = before.count();
    let stride = before.stride();
    let new = w.written_to(file);
    lemma_header_len(before.start());
    lemma_header_len(after.start());
    lemma_le_len(before.dimension() as nat, 4);
    lemma_offsets(n, stride);
    assert(new.len() == file.len() + stride);
    assert(new.take(21) =~= after.preamble()) by {
        assert forall|k: int| 16 <= k < 21 implies new[k] == after.preamble()[k] by {
            assert(new[k] == file[k]);
            assert(file[k] == file.take(21)[k]);
        }
    }
    assert forall|i: int| 0 <= i < n implies #[trigger] after.record_at(new, i) == before.record_at(file, i) by {
        lemma_records_before(i, n, stride);
        assert(after.record_at(new, i) =~= before.record_at(file, i));
    }
    assert(after.record_at(new, n) =~= record(v));
}

/// Every record that the header counts can be read.
pub proof fn law_in_step_readable(s: VectorStorage, file: Seq<u8>, idx: int)
    requires
        s.in_step(file),
        0 <= idx < s.count(),
    ensures
        s.readable(file, idx),
{
    lemma_records_before(idx, s.count(), s.stride());
}

/// What is read of a record is what was written: a vector of the storage's dimension and
/// width comes back with its norms, its indices and its signs.
pub proof fn law_read_gives_back(s: VectorStorage, v: LloydMaxVector, r: LloydMaxVector)
    requires
        s.wf(),
        v.stored().indices.len() == packed_len(s.dimension() as int, s.width() as int),
        record(v.stored()).len() == s.stride(),
        s.holds(record(v.stored()), r),
    ensures
        r.stored() == v.stored(),
{
    assert(record(v.stored()).take(s.stride()) =~= record(v.stored()));
    law_record_determines(r.stored(), v.stored());
}

/// Opening a file that is in step with a storage gives that storage.
pub proof fn law_open_gives_back(s: VectorStorage, file: Seq<u8>, t: VectorStorage)
    requires
        s.in_step(file),
        t.described_by(file),
    ensures
        file.len() >= 21,
        file.take(4) == magic_bytes(),
        t == s,
{
    lemma_header_len(s.start());
    lemma_le_len(s.dimension() as nat, 4);
    lemma_offsets(s.count(), s.stride());
    assert(0 <= s.count() * s.stride());
    let p = s.preamble();
    assert(file.take(16) =~= file.take(21).take(16));
    assert(p.take(16) =~= s.start().encoded());
    law_header_from_bytes(s.start(), t.start());
    assert(file.take(4) =~= s.start().encoded().take(4));
    assert(s.start().magic@ =~= s.start().encoded().take(4));
    lemma_reach();
    law_number_of_le(s.dimension() as nat, 4);
    assert(file.subrange(16, 20) =~= file.take(21).subrange(16, 20));
    assert(p.subrange(16, 20) =~= le(s.dimension() as nat, 4));
    assert(file[20] == file.take(21)[20]);
}

/// `states` are a storage and its file after each of the appends of `vectors`, the writes
/// done, starting without a vector.
pub open spec fn is_filling(states: Seq<(VectorStorage, Seq<u8>)>, vectors: Seq<LloydMaxVector>) -> bool {
    &&& states.len() == vectors.len() + 1
    &&& states[0].0.in_step(states[0].1)
    &&& states[0].0.count() == 0
    &&& forall|i: int|
        0 <= i < vectors.len() ==> exists|w: Appended|
            {
                &&& #[trigger] appends(states[i].0, (#[trigger] vectors[i]).stored(), states[i + 1].0, w)
                &&& states[i + 1].1 == w.written_to(states[i].1)
            }
}

proof fn lemma_filling(states: Seq<(VectorStorage, Seq<u8>)>, vectors: Seq<LloydMaxVector>, n: int)
    requires
        is_filling(states, vectors),
        0 <= n <= vectors.len(),
    ensures
        states[n].0.in_step(states[n].1),
        states[n].0.count() == n,
        states[n].0.dimension() == states[0].0.dimension(),
        states[n].0.width() == states[0].0.width(),
        states[n].0.stride() == states[0].0.stride(),
        forall|i: int|
            0 <= i < n ==> #[trigger] states[n].0.record_at(states[n].1, i) == record(vectors[i].stored()) && record(
                vectors[i].stored(),
            ).len() == states[0].0.stride(),
    decreases n,
{
    if n > 0 {
        lemma_filling(states, vectors, n - 1);
        let v = vectors[n - 1];
        let w = choose|w: Appended|
            {
                &&& #[trigger] appends(states[n - 1].0, v.stored(), states[n - 1 + 1].0, w)
                &&& states[n - 1 + 1].1 == w.written_to(states[n - 1].1)
            };
        law_append_extends(states[n - 1].0, states[n - 1].1, v.stored(), states[n].0, w);
    }
}

/// After appends of vectors that are compressed to the storage's dimension and width, the
/// storage has that many, and every read gives back what was appended: its norms, its indices
/// and its signs. So does a read after the file is opened again.
pub proof fn law_reads_give_appends_back(
    states: Seq<(VectorStorage, Seq<u8>)>,
    vectors: Seq<LloydMaxVector>,
    opened: VectorStorage,
    idx: int,
    r: LloydMaxVector,
)
    requires
        is_filling(states, vectors),
        forall|i: int|
            0 <= i < vectors.len() ==> (#[trigger] vectors[i]).scalar.dim == states[0].0.dimension()
                && vectors[i].scalar.bits == states[0].0.width() && vectors[i].stored().indices.len() == packed_len(
                states[0].0.dimension() as int,
                states[0].0.width() as int,
            ),
        opened == states.last().0 || opened.described_by(states.last().1),
        0 <= idx < vectors.len(),
        opened.holds(opened.record_at(states.last().1, idx), r),
    ensures
        opened == states.last().0,
        opened.count() == vectors.len(),
        opened.readable(states.last().1, idx),
        r.stored() == vectors[idx].stored(),
        r.scalar.dim == vectors[idx].scalar.dim,
        r.scalar.bits == vectors[idx].scalar.bits,
{
    let (s, file) = states.last();
    lemma_filling(states, vectors, vectors.len() as int);
    if opened != s {
        law_open_gives_back(s, file, opened);
    }
    law_in_step_readable(s, file, idx);
    assert(s.record_at(file, idx) == record(vectors[idx].stored()));
    law_read_gives_back(s, vectors[idx], r);
}

/// The bytes of a header: the magic, then the version, the number of vectors and the number of
/// bytes of a record, four bytes each.
pub proof fn law_header_layout(h: IndexHeader)
    ensures
        h.encoded().len() == 16,
        h.encoded().subrange(0, 4) == h.magic@,
        number(h.encoded().subrange(4, 8)) == h.version,
        number(h.encoded().subrange(8, 12)) == h.num_vectors,
        number(h.encoded().subrange(12, 16)) == h.bytes_per_vector,
{
    lemma_reach();
    law_number_of_le(h.version as nat, 4);
    law_number_of_le(h.num_vectors as nat, 4);
    law_number_of_le(h.bytes_per_vector as nat, 4);
    let e = h.encoded();
    assert(e.subrange(0, 4) =~= h.magic@);
    assert(e.subrange(4, 8) =~= le(h.version as nat, 4));
    assert(e.subrange(8, 12) =~= le(h.num_vectors as nat, 4));
    assert(e.subrange(12, 16) =~= le(h.bytes_per_vector as nat, 4));
}

/// The bytes of a record: the vector's norm and that of its residual, four bytes each, then the
/// indices and then the signs.
pub proof fn law_record_layout(v: StoredVector)
    ensures
        record(v).len() == 8 + v.indices.len() + v.signs.len(),
        number(record(v).subrange(0, 4)) == v.original_norm,
        number(record(v).subrange(4, 8)) == v.residual_norm,
        record(v).subrange(8, 8 + v.indices.len() as int) == v.indices,
        record(v).skip(8 + v.indices.len() as int) == v.signs,
{
    lemma_reach();
    lemma_record_len(v);
    law_number_of_le(v.original_norm as nat, 4);
    law_number_of_le(v.residual_norm as nat, 4);
    let e = record(v);
    assert(e.subrange(0, 4) =~= le(v.original_norm as nat, 4));
    assert(e.subrange(4, 8) =~= le(v.residual_norm as nat, 4));
    assert(e.subrange(8, 8 + v.indices.len() as int) =~= v.indices);
    assert(e.skip(8 + v.indices.len() as int) =~= v.signs);
}

/// A record has room for two norms, for the indices of all coordinates and for their signs, each
/// in whole bytes.
pub proof fn law_record_size(dim: int, bits: int)
    requires
        0 <= dim,
        0 <= bits,
    ensures
        exists|indices: int, signs: int|
            #![trigger indices + signs]
            record_size(dim, bits) == 8 + (indices + signs) && dim * bits <= 8 * indices < dim * bits + 8 && dim <= 8
                * signs < dim + 8,
{
    law_packed_len(dim, bits);
    law_packed_len(dim, 1);
    let (indices, signs) = (packed_len(dim, bits), packed_len(dim, 1));
    assert(record_size(dim, bits) == 8 + (indices + signs));
}

} // verus!
