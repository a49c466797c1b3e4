//! An index decoded into memory, for offline diagnosis.
use vstd::prelude::*;

use crate::index_file::{read_header, read_i8, read_u32, read_u64, LoadError};
use crate::quantize::{FloatBits, DIMS};

verus! {

/// A decoded index.
pub struct IvfIndex {
    pub num_cents: usize,
    pub num_vecs: usize,
    pub default_probes: usize,
    pub centroids: Vec<[FloatBits; DIMS]>,
    pub offsets: Vec<u64>,
    pub vecs: Vec<[i8; DIMS]>,
    pub labels: Vec<bool>,
}

impl IvfIndex {
    /// What the index holds.
    pub open spec fn model(&self) -> crate::index_file::IndexModel {
        crate::index_file::IndexModel {
            centroids: self.centroids@.map_values(|c: [FloatBits; DIMS]| c@),
            offsets: self.offsets@,
            vectors: self.vecs@.map_values(|v: [i8; DIMS]| v@),
            labels: self.labels@,
        }
    }

    /// The counts agree with the tables.
    pub open spec fn wf(&self) -> bool {
        &&& self.num_cents == self.centroids.len()
        &&& self.offsets@.len() == self.num_cents + 1
        &&& self.num_vecs == self.vecs.len()
        &&& self.num_vecs == self.labels.len()
    }

    /// Decodes the bytes of an index file.
    pub fn load(bytes: &[u8]) -> (res: Result<IvfIndex, LoadError>)
        ensures
            match res {
                Ok(index) => {
                    &&& crate::index_file::header_error(bytes@) is None
                    &&& index.wf()
                    &&& index.model() == crate::index_file::decode(bytes@)
                    &&& index.default_probes == crate::index_file::header_probes(bytes@)
                },
                Err(e) => crate::index_file::header_error(bytes@) == Some(e),
            },
    {
        let header = match read_header(bytes) {
            Ok(h) => h,
            Err(e) => {
                return Err(e);
            },
        };
        let ghost m = crate::index_file::decode(bytes@);
        assert(bytes.len() == bytes@.len());
        let mut centroids: Vec<[FloatBits; DIMS]> = Vec::new();
        let mut c: usize = 0;
        while c < header.num_cents
            invariant
                bytes.len() == bytes@.len(),
                header.describes(bytes@),
                m == crate::index_file::decode(bytes@),
                c <= header.num_cents,
                centroids.len() == c,
                forall|i: int| 0 <= i < c ==> (#[trigger] centroids[i])@ == m.centroids[i],
            decreases header.num_cents - c,
        {
            let mut row: [FloatBits; DIMS] = [FloatBits { bits: 0 };DIMS];
            let mut j: usize = 0;
            while j < DIMS
                invariant
                    bytes.len() == bytes@.len(),
                    header.describes(bytes@),
                    m == crate::index_file::decode(bytes@),
                    c < header.num_cents,
                    j <= DIMS,
                    forall|i: int| 0 <= i < j ==> #[trigger] row[i] == m.centroids[c as int][i],
                decreases DIMS - j,
            {
                row[j] = FloatBits { bits: read_u32(bytes, 32 + c * 56 + j * 4) };
                j = j + 1;
            }
            assert(row@ =~= m.centroids[c as int]);
            centroids.push(row);
            c = c + 1;
        }
        let mut offsets: Vec<u64> = Vec::new();
        let mut i: usize = 0;
        while i < header.num_cents + 1
            invariant
                bytes.len() == bytes@.len(),
                header.describes(bytes@),
                m == crate::index_file::decode(bytes@),
                i <= header.num_cents + 1,
                offsets.len() == i,
                forall|j: int| 0 <= j < i ==> #[trigger] offsets[j] == m.offsets[j],
            decreases header.num_cents + 1 - i,
        {
            offsets.push(read_u64(bytes, header.offset_off + i * 8));
            i = i + 1;
        }
        let mut vecs: Vec<[i8; DIMS]> = Vec::new();
        let mut v: usize = 0;
        while v < header.num_vecs
            invariant
                bytes.len() == bytes@.len(),
                header.describes(bytes@),
                m == crate::index_file::decode(bytes@),
                v <= header.num_vecs,
                vecs.len() == v,
                forall|j: int| 0 <= j < v ==> (#[trigger] vecs[j])@ == m.vectors[j],
            decreases header.num_vecs - v,
        {
            let mut row: [i8; DIMS] = [0i8;DIMS];
            let mut j: usize = 0;
            while j < DIMS
                invariant
                    bytes.len() == bytes@.len(),
                    header.describes(bytes@),
                    m == crate::index_file::decode(bytes@),
                    v < header.num_vecs,
                    j <= DIMS,
                    forall|i: int| 0 <= i < j ==> #[trigger] row[i] == m.vectors[v as int][i],
                decreases DIMS - j,
            {
                row[j] = read_i8(bytes[header.vec_off + v * DIMS + j]);
                j = j + 1;
            }
            assert(row@ =~= m.vectors[v as int]);
            vecs.push(row);
            v = v + 1;
        }
        let mut labels: Vec<bool> = Vec::new();
        let mut l: usize = 0;
        while l < header.num_vecs
            invariant
                bytes.len() == bytes@.len(),
                header.describes(bytes@),
                m == crate::index_file::decode(bytes@),
                l <= header.num_vecs,
                labels.len() == l,
                forall|j: int| 0 <= j < l ==> #[trigger] labels[j] == m.labels[j],
            decreases header.num_vecs - l,
        {
            labels.push(bytes[header.label_off + l] == 1);
            l = l + 1;
        }
        let index = IvfIndex {
            num_cents: header.num_cents,
            num_vecs: header.num_vecs,
            default_probes: header.default_probes,
            centroids,
            offsets,
            vecs,
            labels,
        };
        assert(index.model().centroids =~= m.centroids);
        assert(index.model().offsets =~= m.offsets);
        assert(index.model().vectors =~= m.vectors);
        assert(index.model().labels =~= m.labels);
        Ok(index)
    }
}

/// The model of a decoded index has its tables, row by row.
pub proof fn lemma_model_rows(index: IvfIndex, c: int, v: int)
    ensures
        index.model().centroids.len() == index.centroids.len(),
        index.model().vectors.len() == index.vecs.len(),
        index.model().offsets == index.offsets@,
        index.model().labels == index.labels@,
        0 <= c < index.centroids.len() ==> index.model().centroids[c] == index.centroids[c]@,
        0 <= v < index.vecs.len() ==> index.model().vectors[v] == index.vecs[v]@,
{
}

} // verus!
