//! The metadata that is kept beside a storage file.
//!
//! The fields follow one another in the encoding of the `bincode` crate:
//! integers are little-endian with their full width, and a list is its length
//! followed by its elements.
use crate::bytes::{law_number_of_le, le, lemma_le_len, lemma_reach, number, reach};
use crate::error::TurboError;
use vstd::prelude::*;

verus! {

/// The version of the layout that is written.
pub const META_VERSION: u8 = 2;

/// What is known of an index beside its vectors.
pub struct IndexMeta {
    pub dim: usize,
    pub rotation_seed: u64,
    pub qjl_seed: u64,
    pub bits: u8,
    pub ids: Vec<u64>,
    pub deleted: Vec<u64>,
    pub next_id: u64,
    pub version: u8,
}

/// The contents of `IndexMeta`.
#[verifier::ext_equal]
pub struct MetaFields {
    pub dim: usize,
    pub rotation_seed: u64,
    pub qjl_seed: u64,
    pub bits: u8,
    pub ids: Seq<u64>,
    pub deleted: Seq<u64>,
    pub next_id: u64,
    pub version: u8,
}

impl View for IndexMeta {
    type V = MetaFields;

    open spec fn view(&self) -> MetaFields {
        MetaFields {
            dim: self.dim,
            rotation_seed: self.rotation_seed,
            qjl_seed: self.qjl_seed,
            bits: self.bits,
            ids: self.ids@,
            deleted: self.deleted@,
            next_id: self.next_id,
            version: self.version,
        }
    }
}

/// The metadata with the given fields.
pub open spec fn fields_of(fields: (usize, u64, u64, u8, Vec<u64>, Vec<u64>, u64, u8)) -> MetaFields {
    MetaFields {
        dim: fields.0,
        rotation_seed: fields.1,
        qjl_seed: fields.2,
        bits: fields.3,
        ids: fields.4@,
        deleted: fields.5@,
        next_id: fields.6,
        version: fields.7,
    }
}

/// The bytes of the elements of a list.
pub open spec fn encoded_elements(list: Seq<u64>) -> Seq<u8>
    decreases list.len(),
{
    if list.len() == 0 {
        Seq::empty()
    } else {
        encoded_elements(list.drop_last()) + le(list.last() as nat, 8)
    }
}

/// The bytes of a list: its length, and its elements.
pub open spec fn encoded_list(list: Seq<u64>) -> Seq<u8> {
    le(list.len(), 8) + encoded_elements(list)
}

/// The bytes of the metadata.
pub open spec fn encoded_meta(m: MetaFields) -> Seq<u8> {
    le(m.dim as nat, 8) + le(m.rotation_seed as nat, 8) + le(m.qjl_seed as nat, 8) + seq![m.bits] + encoded_list(m.ids)
        + encoded_list(m.deleted) + le(m.next_id as nat, 8) + seq![m.version]
}

/// The text of the error that `bincode::deserialize` gives for bytes that start with no
/// encoded metadata.
pub uninterp spec fn decoding_failure(data: Seq<u8>) -> Seq<char>;

/// `bincode::serialize` on a tuple of the fields: every integer little-endian with its full
/// width, a `usize` as eight bytes, a list as its length in eight bytes and its elements.
/// With no limit set, and lists that know their length, it does not fail.
#[verifier::external_body]
fn serialize_fields(fields: &(usize, u64, u64, u8, Vec<u64>, Vec<u64>, u64, u8)) -> (r: Result<Vec<u8>, String>)
    ensures
        r is Ok,
        r->Ok_0@ == encoded_meta(fields_of(*fields)),
{
    bincode::serialize(fields).map_err(|e| e.to_string())
}

/// `bincode::deserialize` to a tuple of the fields: it succeeds where the bytes start with
/// encoded fields, gives those, and does not look at what follows. Else it gives an error,
/// of which the text is handed on.
#[verifier::external_body]
fn deserialize_fields(data: &[u8]) -> (r: Result<(usize, u64, u64, u8, Vec<u64>, Vec<u64>, u64, u8), String>)
    ensures
        match r {
            Ok(fields) => encoded_meta(fields_of(fields)).is_prefix_of(data@),
            Err(text) => text@ == decoding_failure(data@) && forall|m: MetaFields|
                !(#[trigger] encoded_meta(m)).is_prefix_of(data@),
        },
{
    bincode::deserialize(data).map_err(|e| e.to_string())
}

impl IndexMeta {
    /// The metadata's bytes.
    pub fn to_bytes(self) -> (r: Vec<u8>)
        ensures
            r@ == encoded_meta(self@),
    {
        let fields = (
            self.dim,
            self.rotation_seed,
            self.qjl_seed,
            self.bits,
            self.ids,
            self.deleted,
            self.next_id,
            self.version,
        );
        match serialize_fields(&fields) {
            Ok(data) => data,
            Err(_) => Vec::new(),
        }
    }

    /// The metadata that the bytes start with.
    pub fn from_bytes(data: &[u8]) -> (r: Result<IndexMeta, TurboError>)
        ensures
            match r {
                Ok(m) => encoded_meta(m@).is_prefix_of(data@),
                Err(TurboError::Storage(text)) => {
                    &&& text@ == "failed to deserialize meta: "@ + decoding_failure(data@)
                    &&& forall|m: MetaFields| !(#[trigger] encoded_meta(m)).is_prefix_of(data@)
                },
                Err(_) => false,
            },
    {
        match deserialize_fields(data) {
            Ok(fields) => Ok(
                IndexMeta {
                    dim: fields.0,
                    rotation_seed: fields.1,
                    qjl_seed: fields.2,
                    bits: fields.3,
                    ids: fields.4,
                    deleted: fields.5,
                    next_id: fields.6,
                    version: fields.7,
                },
            ),
            Err(text) => {
                let mut message: String = String::from_str("failed to deserialize meta: ");
                message.append(text.as_str());
                Err(TurboError::Storage(message))
            },
        }
    }
}

proof fn lemma_elements_len(list: Seq<u64>)
    ensures
        encoded_elements(list).len() == 8 * list.len(),
    decreases list.len(),
{
    if list.len() > 0 {
        lemma_elements_len(list.drop_last());
        lemma_le_len(list.last() as nat, 8);
    }
}

proof fn lemma_element_at(list: Seq<u64>, i: int)
    requires
        0 <= i < list.len(),
    ensures
        encoded_elements(list).len() == 8 * list.len(),
        number(encoded_elements(list).subrange(8 * i, 8 * i + 8)) == list[i],
    decreases list.len(),
{
    lemma_elements_len(list);
    lemma_elements_len(list.drop_last());
    lemma_reach();
    let all = encoded_elements(list);
    let before = encoded_elements(list.drop_last());
    if i == list.len() - 1 {
        law_number_of_le(list.last() as nat, 8);
        assert(all.subrange(8 * i, 8 * i + 8) =~= le(list.last() as nat, 8));
    } else {
        lemma_element_at(list.drop_last(), i);
        lemma_le_len(list.last() as nat, 8);
        assert(all.subrange(8 * i, 8 * i + 8) =~= before.subrange(8 * i, 8 * i + 8));
    }
}

proof fn lemma_lists_agree(a: Seq<u64>, b: Seq<u64>, data: Seq<u8>, at: int)
    requires
        a.len() < reach(8),
        b.len() < reach(8),
        0 <= at,
        at + 8 + 8 * a.len() <= data.len(),
        at + 8 + 8 * b.len() <= data.len(),
        data.subrange(at, at + 8 + 8 * a.len()) == encoded_list(a),
        data.subrange(at, at + 8 + 8 * b.len()) == encoded_list(b),
    ensures
        a == b,
{
    law_number_of_le(a.len(), 8);
    law_number_of_le(b.len(), 8);
    lemma_elements_len(a);
    lemma_elements_len(b);
    let length = data.subrange(at, at + 8);
    assert(encoded_list(a).take(8) =~= le(a.len(), 8));
    assert(encoded_list(b).take(8) =~= le(b.len(), 8));
    assert(encoded_list(a).take(8) =~= length);
    assert(encoded_list(b).take(8) =~= length);
    assert(a.len() == b.len());
    assert forall|i: int| 0 <= i < a.len() implies a[i] == b[i] by {
        lemma_element_at(a, i);
        lemma_element_at(b, i);
        let here = data.subrange(at + 8 + 8 * i, at + 8 + 8 * i + 8);
        assert(encoded_list(a).skip(8) =~= encoded_elements(a));
        assert(encoded_list(b).skip(8) =~= encoded_elements(b));
        assert(encoded_elements(a).subrange(8 * i, 8 * i + 8) =~= here);
        assert(encoded_elements(b).subrange(8 * i, 8 * i + 8) =~= here);
    }
    assert(a =~= b);
}

proof fn lemma_meta_layout(m: MetaFields, data: Seq<u8>)
    requires
        encoded_meta(m).is_prefix_of(data),
    ensures
        encoded_meta(m).len() == 50 + 8 * m.ids.len() + 8 * m.deleted.len(),
        encoded_meta(m).len() <= data.len(),
        data.subrange(0, 8) == le(m.dim as nat, 8),
        data.subrange(8, 16) == le(m.rotation_seed as nat, 8),
        data.subrange(16, 24) == le(m.qjl_seed as nat, 8),
        data[24] == m.bits,
        ({
            let p = 33 + 8 * m.ids.len() as int;
            let q = p + 8 + 8 * m.deleted.len() as int;
            &&& data.subrange(25, p) == encoded_list(m.ids)
            &&& data.subrange(p, q) == encoded_list(m.deleted)
            &&& data.subrange(q, q + 8) == le(m.next_id as nat, 8)
            &&& data[q + 8] == m.version
        }),
{
    lemma_le_len(m.dim as nat, 8);
    lemma_le_len(m.rotation_seed as nat, 8);
    lemma_le_len(m.qjl_seed as nat, 8);
    lemma_le_len(m.next_id as nat, 8);
    lemma_le_len(m.ids.len(), 8);
    lemma_le_len(m.deleted.len(), 8);
    lemma_elements_len(m.ids);
    lemma_elements_len(m.deleted);
    let e = encoded_meta(m);
    let p = 33 + 8 * m.ids.len() as int;
    let q = p + 8 + 8 * m.deleted.len() as int;
    assert(e =~= data.take(e.len() as int));
    assert(e.subrange(0, 8) =~= le(m.dim as nat, 8));
    assert(e.subrange(8, 16) =~= le(m.rotation_seed as nat, 8));
    assert(e.subrange(16, 24) =~= le(m.qjl_seed as nat, 8));
    assert(e.subrange(25, p) =~= encoded_list(m.ids));
    assert(e.subrange(p, q) =~= encoded_list(m.deleted));
    assert(e.subrange(q, q + 8) =~= le(m.next_id as nat, 8));
    assert(data.subrange(0, 8) =~= e.subrange(0, 8));
    assert(data.subrange(8, 16) =~= e.subrange(8, 16));
    assert(data.subrange(16, 24) =~= e.subrange(16, 24));
    assert(data.subrange(25, p) =~= e.subrange(25, p));
    assert(data.subrange(p, q) =~= e.subrange(p, q));
    assert(data.subrange(q, q + 8) =~= e.subrange(q, q + 8));
    assert(data[24] == e[24]);
    assert(data[q + 8] == e[q + 8]);
}

/// Bytes start with the encoding of one metadata at most: what is read is what was written.
pub proof fn law_meta_unique(a: MetaFields, b: MetaFields, data: Seq<u8>)
    requires
        encoded_meta(a).is_prefix_of(data),
        encoded_meta(b).is_prefix_of(data),
        data.len() <= u64::MAX,
    ensures
        a == b,
{
    lemma_reach();
    lemma_meta_layout(a, data);
    lemma_meta_layout(b, data);
    law_number_of_le(a.dim as nat, 8);
    law_number_of_le(b.dim as nat, 8);
    law_number_of_le(a.rotation_seed as nat, 8);
    law_number_of_le(b.rotation_seed as nat, 8);
    law_number_of_le(a.qjl_seed as nat, 8);
    law_number_of_le(b.qjl_seed as nat, 8);
    law_number_of_le(a.next_id as nat, 8);
    law_number_of_le(b.next_id as nat, 8);
    lemma_lists_agree(a.ids, b.ids, data, 25);
    lemma_lists_agree(a.deleted, b.deleted, data, 33 + 8 * a.ids.len() as int);
}

} // verus!
