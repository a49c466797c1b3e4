//! Assembly of an index from a stream of reference records.
use vstd::prelude::*;

use crate::index_file::{write_index, Entry};
use crate::nearest::nearest_centroid;
use crate::quantize::{quantize_vec, FloatBits, DIMS};

verus! {

/// A usable reference: the first 14 numbers of a record, and whether it is
/// fraud.
pub struct Reference {
    pub vec: [FloatBits; DIMS],
    pub is_fraud: bool,
}

/// Takes a record over. One with too few numbers is skipped; numbers past the
/// fourteenth are ignored.
pub fn take_record(vector: &Vec<FloatBits>, label: &String) -> (r: Option<Reference>)
    ensures
        match r {
            Some(x) => {
                &&& vector.len() >= 14
                &&& x.vec@ == vector@.take(14)
                &&& x.is_fraud == (label@ == "fraud"@)
            },
            None => vector.len() < 14,
        },
{
    if vector.len() < DIMS {
        return None;
    }
    let mut vec: [FloatBits; DIMS] = [FloatBits { bits: 0 };DIMS];
    let mut i: usize = 0;
    while i < DIMS
        invariant
            i <= DIMS,
            vector.len() >= DIMS,
            forall|j: int| 0 <= j < i ==> #[trigger] vec[j] == vector[j],
        decreases DIMS - i,
    {
        vec[i] = vector[i];
        i = i + 1;
    }
    assert(vec@ =~= vector@.take(14));
    Some(Reference { vec, is_fraud: *label == "fraud".to_owned() })
}

/// Reference vectors, gathered by cluster.
pub struct IndexBuilder {
    pub clusters: Vec<Vec<Entry>>,
    /// How many vectors there are in all clusters.
    pub total: usize,
}

proof fn lemma_flat_grows(before: Seq<Vec<Entry>>, after: Seq<Vec<Entry>>, c: int)
    requires
        0 <= c < before.len(),
        after.len() == before.len(),
        after[c]@.len() == before[c]@.len() + 1,
        forall|d: int| 0 <= d < before.len() && d != c ==> #[trigger] after[d] == before[d],
    ensures
        crate::index_file::flat(after).len() == crate::index_file::flat(before).len() + 1,
    decreases before.len(),
{
    if c < before.len() - 1 {
        lemma_flat_grows(before.drop_last(), after.drop_last(), c);
    } else {
        assert(after.drop_last() =~= before.drop_last());
    }
}

proof fn lemma_flat_of_empty(clusters: Seq<Vec<Entry>>)
    requires
        forall|c: int| 0 <= c < clusters.len() ==> (#[trigger] clusters[c])@.len() == 0,
    ensures
        crate::index_file::flat(clusters).len() == 0,
    decreases clusters.len(),
{
    if clusters.len() > 0 {
        lemma_flat_of_empty(clusters.drop_last());
        assert(clusters[clusters.len() - 1]@.len() == 0);
    }
}

impl IndexBuilder {
    /// The total is right.
    pub open spec fn wf(&self) -> bool {
        crate::index_file::flat(self.clusters@).len() == self.total
    }

    /// `k` empty clusters.
    pub fn new(k: usize) -> (b: IndexBuilder)
        ensures
            b.wf(),
            b.total == 0,
            b.clusters.len() == k,
            forall|c: int|
                0 <= c < k ==> (#[trigger] b.clusters[c])@ == Seq::<Entry>::empty(),
    {
        let mut clusters: Vec<Vec<Entry>> = Vec::new();
        let mut c: usize = 0;
        while c < k
            invariant
                c <= k,
                clusters.len() == c,
                forall|d: int| 0 <= d < c ==> (#[trigger] clusters[d])@ == Seq::<Entry>::empty(),
            decreases k - c,
        {
            clusters.push(Vec::new());
            c = c + 1;
        }
        proof {
            lemma_flat_of_empty(clusters@);
        }
        IndexBuilder { clusters, total: 0 }
    }

    /// Adds a reference, quantized, to the cluster of its nearest centroid.
    /// `cent_keys` holds the distance keys of all centroids.
    pub fn add(&mut self, r: &Reference, cent_keys: &Vec<u32>)
        requires
            old(self).wf(),
            old(self).total < usize::MAX,
            cent_keys.len() == old(self).clusters.len(),
            cent_keys.len() > 0,
        ensures
            final(self).wf(),
            final(self).total == old(self).total + 1,
            final(self).clusters.len() == old(self).clusters.len(),
            ({
                let c = crate::nearest::nearest(cent_keys@);
                let entry = final(self).clusters[c]@.last();
                &&& 0 <= c < old(self).clusters.len()
                &&& final(self).clusters[c]@ == old(self).clusters[c]@.push(entry)
                &&& entry.vec@ == crate::quantize::quantized_vec(r.vec@)
                &&& entry.is_fraud == r.is_fraud
                &&& forall|d: int|
                    0 <= d < old(self).clusters.len() && d != c ==> (
                    #[trigger] final(self).clusters[d]) == old(self).clusters[d]
            }),
    {
        let ghost before = self.clusters@;
        let c: usize = nearest_centroid(cent_keys);
        let entry: Entry = Entry { vec: quantize_vec(&r.vec), is_fraud: r.is_fraud };
        self.clusters[c].push(entry);
        proof {
            lemma_flat_grows(before, self.clusters@, c as int);
        }
        self.total = self.total + 1;
    }

    /// The index file.
    pub fn index_file(&self, centroids: &Vec<[FloatBits; DIMS]>, default_probes: usize) -> (bytes:
        Vec<u8>)
        requires
            self.wf(),
        ensures
            bytes@ == crate::index_file::index_bytes(
                centroids@,
                self.clusters@,
                self.total as u64,
                self.clusters.len() as u32,
                default_probes as u32,
            ),
    {
        write_index(
            centroids,
            &self.clusters,
            self.total as u64,
            self.clusters.len() as u32,
            default_probes as u32,
        )
    }
}

} // verus!
