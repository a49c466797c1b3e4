//! Nearest-neighbour search over the bytes of a loaded index.
use vstd::prelude::*;

use crate::heap::{offer, Candidate};
use crate::index_file::{read_header, read_i8, read_u32, read_u64, Header, LoadError};
use crate::nearest::nearest_indices;
use crate::quantize::{quantize_vec, FloatBits, DIMS};
use crate::scan::dist_int8;

verus! {

/// A neighbour that a search returns.
#[derive(Clone, Copy, PartialEq, Eq, Structural, Debug)]
pub struct Neighbor {
    pub is_fraud: bool,
}

/// An index over borrowed bytes, with the number of clusters to probe.
pub struct Searcher<'a> {
    bytes: &'a [u8],
    header: Header,
    probes: usize,
}

impl<'a> Searcher<'a> {
    #[verifier::type_invariant]
    spec fn accepted(self) -> bool {
        crate::index_file::header_error(self.bytes@) is None && self.header.describes(self.bytes@)
    }

    /// What the index holds.
    pub closed spec fn model(&self) -> crate::index_file::IndexModel {
        crate::index_file::decode(self.bytes@)
    }

    /// The number of clusters to probe.
    pub closed spec fn probe_setting(&self) -> nat {
        self.probes as nat
    }

    /// Accepts the bytes of an index file. `probes` clusters are probed per
    /// search, or the header's default where it is 0.
    pub fn load(bytes: &'a [u8], probes: usize) -> (res: Result<Searcher<'a>, LoadError>)
        ensures
            match res {
                Ok(s) => {
                    &&& crate::index_file::header_error(bytes@) is None
                    &&& s.model() == crate::index_file::decode(bytes@)
                    &&& s.probe_setting() == if probes > 0 {
                        probes as nat
                    } else {
                        crate::index_file::header_probes(bytes@) as nat
                    }
                },
                Err(e) => crate::index_file::header_error(bytes@) == Some(e),
            },
    {
        match read_header(bytes) {
            Ok(header) => Ok(
                Searcher {
                    bytes,
                    header,
                    probes: if probes > 0 {
                        probes
                    } else {
                        header.default_probes
                    },
                },
            ),
            Err(e) => Err(e),
        }
    }

    /// The number of centroids.
    pub fn num_cents(&self) -> (n: usize)
        ensures
            n == self.model().centroids.len(),
    {
        proof {
            use_type_invariant(self);
        }
        self.header.num_cents
    }

    /// The number of clusters to probe.
    pub fn probes(&self) -> (n: usize)
        ensures
            n == self.probe_setting(),
    {
        self.probes
    }

    fn range_is_valid(&self, c: usize) -> (ok: bool)
        requires
            c < self.model().centroids.len(),
        ensures
            ok == crate::scan::cluster_in_range(self.model(), c as int),
    {
        proof {
            use_type_invariant(self);
        }
        assert(self.bytes.len() == self.bytes@.len());
        let start: u64 = read_u64(self.bytes, self.header.offset_off + c * 8);
        let end: u64 = read_u64(self.bytes, self.header.offset_off + (c + 1) * 8);
        assert(start == self.model().offsets[c as int] && end == self.model().offsets[c + 1]);
        start >= end || end <= self.header.num_vecs as u64
    }

    /// Whether the range of every cluster is empty or within the stored
    /// vectors, so that any of them can be scanned.
    pub fn ranges_are_valid(&self) -> (ok: bool)
        ensures
            ok <==> forall|c: int|
                0 <= c < self.model().centroids.len() ==> #[trigger] crate::scan::cluster_in_range(
                    self.model(),
                    c,
                ),
    {
        let n: usize = self.num_cents();
        let mut c: usize = 0;
        while c < n
            invariant
                c <= n,
                n == self.model().centroids.len(),
                forall|i: int|
                    0 <= i < c ==> #[trigger] crate::scan::cluster_in_range(self.model(), i),
            decreases n - c,
        {
            if !self.range_is_valid(c) {
                return false;
            }
            c = c + 1;
        }
        true
    }

    /// Whether a query with these distance keys can be searched: there is one key
    /// per centroid, a cluster to probe, and every probed cluster can be scanned.
    pub fn can_search(&self, cent_keys: &Vec<u32>) -> (ok: bool)
        ensures
            ok <==> {
                &&& cent_keys.len() == self.model().centroids.len()
                &&& self.probe_setting() > 0 || self.model().centroids.len() == 0
                &&& crate::scan::all_in_range(
                    self.model(),
                    crate::scan::probed(cent_keys@, self.probe_setting()),
                )
            },
    {
        if cent_keys.len() != self.num_cents() || (self.probes == 0 && cent_keys.len() > 0) {
            return false;
        }
        let n: usize = if self.probes < cent_keys.len() {
            self.probes
        } else {
            cent_keys.len()
        };
        assert(n == crate::scan::probe_count(self.probe_setting(), cent_keys@.len()));
        let order: Vec<usize> = nearest_indices(cent_keys, n);
        let mut p: usize = 0;
        while p < order.len()
            invariant
                p <= order.len(),
                crate::nearest::is_nearest_order(cent_keys@, order@, n as nat),
                order@ == crate::scan::probed(cent_keys@, self.probe_setting()),
                cent_keys.len() == self.model().centroids.len(),
                forall|i: int|
                    0 <= i < p ==> crate::scan::cluster_in_range(
                        self.model(),
                        #[trigger] order@[i] as int,
                    ),
            decreases order.len() - p,
        {
            if !self.range_is_valid(order[p]) {
                assert(!crate::scan::cluster_in_range(self.model(), order@[p as int] as int));
                return false;
            }
            p = p + 1;
        }
        true
    }

    /// Coordinate `j` of centroid `c`.
    pub fn centroid(&self, c: usize, j: usize) -> (f: FloatBits)
        requires
            c < self.model().centroids.len(),
            j < DIMS,
        ensures
            f == self.model().centroids[c as int][j as int],
    {
        proof {
            use_type_invariant(self);
        }
        FloatBits { bits: read_u32(self.bytes, 32 + c * 56 + j * 4) }
    }

    fn vector(&self, v: usize) -> (out: [i8; DIMS])
        requires
            v < self.model().vectors.len(),
        ensures
            out@ == self.model().vectors[v as int],
    {
        proof {
            use_type_invariant(self);
        }
        let start: usize = self.header.vec_off + v * DIMS;
        let mut out: [i8; DIMS] = [0i8; DIMS];
        let mut j: usize = 0;
        while j < DIMS
            invariant
                j <= DIMS,
                v < self.model().vectors.len(),
                self.header.describes(self.bytes@),
                start == self.header.vec_off + v * 14,
                forall|i: int| 0 <= i < j ==> #[trigger] out[i] == self.model().vectors[v as int][i],
            decreases DIMS - j,
        {
            out[j] = read_i8(self.bytes[start + j]);
            j = j + 1;
        }
        assert(out@ =~= self.model().vectors[v as int]);
        out
    }

    fn scan_cluster(&self, query: &[i8; DIMS], c: usize, k: usize, kept: &mut Vec<Candidate>)
        requires
            c < self.model().centroids.len(),
            crate::scan::cluster_in_range(self.model(), c as int),
            k > 0 || crate::scan::cluster_size(self.model(), c as int) == 0,
        ensures
            forall|before: Seq<Candidate>|
                old(kept)@ == #[trigger] crate::heap::best_k(before, k as nat) ==> final(kept)@
                    == crate::heap::best_k(
                    before + crate::scan::cluster_scan(self.model(), query@, c as int),
                    k as nat,
                ),
    {
        proof {
            use_type_invariant(self);
        }
        let ghost m = self.model();
        let ghost all = crate::scan::cluster_scan(m, query@, c as int);
        let start: u64 = read_u64(self.bytes, self.header.offset_off + c * 8);
        let end: u64 = read_u64(self.bytes, self.header.offset_off + c * 8 + 8);
        assert(self.header.offset_off + c * 8 + 8 == self.header.offset_off + (c + 1) * 8);
        assert(start == m.offsets[c as int] && end == m.offsets[c + 1]);
        let mut v: u64 = start;
        assert forall|before: Seq<Candidate>| old(kept)@ == #[trigger] crate::heap::best_k(
            before,
            k as nat,
        ) implies kept@ == crate::heap::best_k(before + all.take(0), k as nat) by {
            assert(before + all.take(0) =~= before);
        }
        while v < end
            invariant
                m == self.model(),
                self.header.describes(self.bytes@),
                start == m.offsets[c as int],
                end == m.offsets[c + 1],
                start < end ==> end <= m.vectors.len(),
                start < end ==> start <= v <= end,
                start < end ==> k > 0,
                start >= end ==> v == start,
                all == crate::scan::cluster_scan(m, query@, c as int),
                forall|before: Seq<Candidate>|
                    old(kept)@ == #[trigger] crate::heap::best_k(before, k as nat) ==> kept@
                        == crate::heap::best_k(before + all.take(v - start), k as nat),
            decreases end - v,
        {
            let ghost entry = kept@;
            let vi: usize = v as usize;
            let stored: [i8; DIMS] = self.vector(vi);
            let dist: i32 = dist_int8(&stored, query);
            assert(self.bytes.len() == self.bytes@.len());
            let is_fraud: bool = self.bytes[self.header.label_off + vi] == 1;
            let c: Candidate = Candidate { vec_idx: vi, dist, is_fraud };
            assert(c == all[v - start]);
            offer(kept, c, k);
            assert forall|before: Seq<Candidate>| old(kept)@ == #[trigger] crate::heap::best_k(
                before,
                k as nat,
            ) implies kept@ == crate::heap::best_k(
                before + all.take(v + 1 - start),
                k as nat,
            ) by {
                let seen = before + all.take(v + 1 - start);
                assert(seen.drop_last() =~= before + all.take(v - start));
                assert(seen.last() == c);
            }
            v = v + 1;
        }
        assert(all.take(all.len() as int) =~= all);
    }

    /// The `k` nearest neighbours of `query` among the vectors of the probed
    /// clusters. `cent_keys` holds the distance keys of all centroids.
    pub fn search(
        &self,
        query: &[FloatBits; DIMS],
        cent_keys: &Vec<u32>,
        k: usize,
    ) -> (res: Vec<Neighbor>)
        requires
            cent_keys.len() == self.model().centroids.len(),
            self.probe_setting() > 0 || self.model().centroids.len() == 0,
            crate::scan::all_in_range(
                self.model(),
                crate::scan::probed(cent_keys@, self.probe_setting()),
            ),
            k > 0 || crate::scan::scanned(
                self.model(),
                crate::quantize::quantized_vec(query@),
                crate::scan::probed(cent_keys@, self.probe_setting()),
            ).len() == 0,
        ensures
            crate::scan::probed(cent_keys@, self.probe_setting()).len() == if self.probe_setting()
                < cent_keys@.len() {
                self.probe_setting()
            } else {
                cent_keys@.len()
            },
            ({
                let seen = crate::scan::scanned(
                    self.model(),
                    crate::quantize::quantized_vec(query@),
                    crate::scan::probed(cent_keys@, self.probe_setting()),
                );
                let best = crate::heap::best_k(seen, k as nat);
                &&& res@ == best.map_values(
                    |c: Candidate| Neighbor { is_fraud: c.is_fraud },
                )
                &&& crate::heap::is_k_nearest(best, seen, k as nat)
            }),
    {
        let q: [i8; DIMS] = quantize_vec(query);
        let n: usize = if self.probes < cent_keys.len() {
            self.probes
        } else {
            cent_keys.len()
        };
        assert(n == crate::scan::probe_count(self.probe_setting(), cent_keys@.len()));
        let order: Vec<usize> = nearest_indices(cent_keys, n);
        let ghost m = self.model();
        let ghost seen = crate::scan::scanned(m, q@, order@);
        let mut kept: Vec<Candidate> = Vec::new();
        let mut p: usize = 0;
        assert(order@.take(0) =~= Seq::empty());
        while p < order.len()
            invariant
                p <= order.len(),
                m == self.model(),
                crate::nearest::is_nearest_order(cent_keys@, order@, n as nat),
                cent_keys.len() == m.centroids.len(),
                k > 0 || crate::scan::scanned(m, q@, order@).len() == 0,
                crate::scan::all_in_range(m, order@),
                kept@ == crate::heap::best_k(
                    crate::scan::scanned(m, q@, order@.take(p as int)),
                    k as nat,
                ),
            decreases order.len() - p,
        {
            proof {
                crate::scan::lemma_scanned_take(m, q@, order@, p as int);
            }
            self.scan_cluster(&q, order[p], k, &mut kept);
            p = p + 1;
        }
        assert(order@.take(order.len() as int) =~= order@);
        proof {
            if k > 0 {
                crate::heap::lemma_best_k_nearest(seen, k as nat);
            } else {
                assert(seen =~= Seq::empty());
                assert(crate::heap::best_k(seen, 0) =~= seen);
            }
        }
        let mut res: Vec<Neighbor> = Vec::new();
        let mut i: usize = 0;
        while i < kept.len()
            invariant
                i <= kept.len(),
                res@ == kept@.take(i as int).map_values(
                    |c: Candidate| Neighbor { is_fraud: c.is_fraud },
                ),
            decreases kept.len() - i,
        {
            res.push(Neighbor { is_fraud: kept[i].is_fraud });
            assert(res@ =~= kept@.take(i + 1).map_values(
                |c: Candidate| Neighbor { is_fraud: c.is_fraud },
            ));
            i = i + 1;
        }
        assert(kept@.take(kept.len() as int) =~= kept@);
        res
    }
}

} // verus!
