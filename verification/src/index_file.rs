//! The binary index format, little-endian:
//!
//! ```text
//! 0       4 B         magic "IVFX"
//! 4       4 B         version, 1
//! 8       8 B         number of vectors, NV
//! 16      4 B         number of centroids, NC
//! 20      4 B         dimensions, 14
//! 24      4 B         default number of probes
//! 28      4 B         reserved, 0
//! 32      NC * 56 B   centroids: 14 single-precision numbers each
//! +       (NC+1) * 8  cluster offsets: index of the first vector per cluster
//! +       NV * 14 B   vectors: 14 int8 values each, sorted by cluster
//! +       NV B        labels: 0 legitimate, 1 fraud
//! ```
use vstd::bytes::{u32_from_le_bytes, u32_to_le_bytes, u64_from_le_bytes, u64_to_le_bytes};
use vstd::prelude::*;
use vstd::slice::slice_subrange;

use crate::quantize::{FloatBits, DIMS};
use crate::text::push_decimal;

verus! {

/// What an index file holds.
#[verifier::ext_equal]
pub struct IndexModel {
    pub centroids: Seq<Seq<FloatBits>>,
    pub offsets: Seq<u64>,
    pub vectors: Seq<Seq<i8>>,
    pub labels: Seq<bool>,
}

/// Why a file cannot be loaded as an index.
#[derive(Clone, Copy, PartialEq, Eq, Debug)]
pub enum LoadError {
    /// Fewer bytes than a header has.
    TooSmallForHeader,
    /// The first four bytes are not the magic.
    BadMagic { found: (u8, u8, u8, u8) },
    /// A version other than 1.
    UnsupportedVersion { version: u32 },
    /// A number of dimensions other than 14.
    WrongDims { dims: u32 },
    /// Fewer bytes than the header announces.
    FileTooSmall { need: u128, got: usize },
}

/// The words for a refused index. `version_gap` stands before a refused
/// version.
pub open spec fn error_text(e: LoadError, version_gap: Seq<char>) -> Seq<char> {
    match e {
        LoadError::TooSmallForHeader => "file too small for header"@,
        LoadError::BadMagic { found } => "bad magic: ["@ + crate::text::decimal(found.0 as nat)
            + ", "@ + crate::text::decimal(found.1 as nat) + ", "@ + crate::text::decimal(
            found.2 as nat,
        ) + ", "@ + crate::text::decimal(found.3 as nat) + "]"@,
        LoadError::UnsupportedVersion { version } => "unsupported version"@ + version_gap
            + crate::text::decimal(version as nat),
        LoadError::WrongDims { dims } => "expected 14 dims, got "@ + crate::text::decimal(
            dims as nat,
        ),
        LoadError::FileTooSmall { need, got } => "file too small: need "@ + crate::text::decimal(
            need as nat,
        ) + ", got "@ + crate::text::decimal(got as nat),
    }
}

impl LoadError {
    /// The words for a refused index, with `version_gap` before a refused
    /// version.
    pub fn message(&self, version_gap: &str) -> (text: String)
        ensures
            text@ == error_text(*self, version_gap@),
            *self == LoadError::TooSmallForHeader ==> text@ == "file too small for header"@,
            self matches LoadError::BadMagic { found } ==> text@ == "bad magic: ["@
                + crate::text::decimal(found.0 as nat) + ", "@ + crate::text::decimal(
                found.1 as nat,
            ) + ", "@ + crate::text::decimal(found.2 as nat) + ", "@ + crate::text::decimal(
                found.3 as nat,
            ) + "]"@,
            self matches LoadError::UnsupportedVersion { version } ==> text@
                == "unsupported version"@ + version_gap@ + crate::text::decimal(version as nat),
            self matches LoadError::WrongDims { dims } ==> text@ == "expected 14 dims, got "@
                + crate::text::decimal(dims as nat),
            self matches LoadError::FileTooSmall { need, got } ==> text@
                == "file too small: need "@ + crate::text::decimal(need as nat) + ", got "@
                + crate::text::decimal(got as nat),
    {
        let mut out: String = String::new();
        match *self {
            LoadError::TooSmallForHeader => {
                out.append("file too small for header");
                assert(out@ =~= "file too small for header"@);
            },
            LoadError::BadMagic { found } => {
                out.append("bad magic: [");
                assert(out@ =~= "bad magic: ["@);
                push_decimal(&mut out, found.0 as u128);
                out.append(", ");
                push_decimal(&mut out, found.1 as u128);
                out.append(", ");
                push_decimal(&mut out, found.2 as u128);
                out.append(", ");
                push_decimal(&mut out, found.3 as u128);
                out.append("]");
            },
            LoadError::UnsupportedVersion { version } => {
                out.append("unsupported version");
                assert(out@ =~= "unsupported version"@);
                out.append(version_gap);
                push_decimal(&mut out, version as u128);
            },
            LoadError::WrongDims { dims } => {
                out.append("expected 14 dims, got ");
                assert(out@ =~= "expected 14 dims, got "@);
                push_decimal(&mut out, dims as u128);
            },
            LoadError::FileTooSmall { need, got } => {
                out.append("file too small: need ");
                assert(out@ =~= "file too small: need "@);
                push_decimal(&mut out, need);
                out.append(", got ");
                push_decimal(&mut out, got as u128);
            },
        }
        out
    }
}

/// The numbers of an accepted header, and where the last three sections start.
#[derive(Clone, Copy, PartialEq, Eq, Debug)]
pub struct Header {
    pub num_vecs: usize,
    pub num_cents: usize,
    pub default_probes: usize,
    pub offset_off: usize,
    pub vec_off: usize,
    pub label_off: usize,
}

/// The `u32` stored at `at`.
pub open spec fn u32_at(bytes: Seq<u8>, at: int) -> u32 {
    vstd::bytes::spec_u32_from_le_bytes(bytes.subrange(at, at + 4))
}

/// The `u64` stored at `at`.
pub open spec fn u64_at(bytes: Seq<u8>, at: int) -> u64 {
    vstd::bytes::spec_u64_from_le_bytes(bytes.subrange(at, at + 8))
}

/// The int8 value that a byte stands for, in two's complement.
pub open spec fn signed(b: u8) -> i8 {
    if b < 128 {
        b as i8
    } else {
        (b - 256) as i8
    }
}

/// The byte that stands for an int8 value.
pub open spec fn unsigned(x: i8) -> u8 {
    if x >= 0 {
        x as u8
    } else {
        (x + 256) as u8
    }
}

/// Where the cluster offsets start.
pub open spec fn offsets_start(num_cents: int) -> int {
    32 + num_cents * 56
}

/// Where the vectors start.
pub open spec fn vectors_start(num_cents: int) -> int {
    offsets_start(num_cents) + (num_cents + 1) * 8
}

/// Where the labels start.
pub open spec fn labels_start(num_cents: int, num_vecs: int) -> int {
    vectors_start(num_cents) + num_vecs * 14
}

/// The size of an index file.
pub open spec fn file_len(num_cents: int, num_vecs: int) -> int {
    labels_start(num_cents, num_vecs) + num_vecs
}

/// The number of vectors that the header announces.
pub open spec fn header_vecs(bytes: Seq<u8>) -> u64 {
    u64_at(bytes, 8)
}

/// The number of centroids that the header announces.
pub open spec fn header_cents(bytes: Seq<u8>) -> u32 {
    u32_at(bytes, 16)
}

/// The default number of probes in the header.
pub open spec fn header_probes(bytes: Seq<u8>) -> u32 {
    u32_at(bytes, 24)
}

/// The first four bytes spell "IVFX".
pub open spec fn has_magic(bytes: Seq<u8>) -> bool {
    bytes[0] == 0x49 && bytes[1] == 0x56 && bytes[2] == 0x46 && bytes[3] == 0x58
}

/// Why `bytes` is no index file; `None` where it is one. The checks are made in
/// this order.
pub open spec fn header_error(bytes: Seq<u8>) -> Option<LoadError> {
    if bytes.len() < 32 {
        Some(LoadError::TooSmallForHeader)
    } else if !has_magic(bytes) {
        Some(LoadError::BadMagic { found: (bytes[0], bytes[1], bytes[2], bytes[3]) })
    } else if u32_at(bytes, 4) != 1 {
        Some(LoadError::UnsupportedVersion { version: u32_at(bytes, 4) })
    } else if u32_at(bytes, 20) != 14 {
        Some(LoadError::WrongDims { dims: u32_at(bytes, 20) })
    } else if bytes.len() < file_len(header_cents(bytes) as int, header_vecs(bytes) as int) {
        Some(
            LoadError::FileTooSmall {
                need: file_len(header_cents(bytes) as int, header_vecs(bytes) as int) as u128,
                got: bytes.len() as usize,
            },
        )
    } else {
        None
    }
}

/// What an accepted file holds.
pub open spec fn decode(bytes: Seq<u8>) -> IndexModel {
    let nc = header_cents(bytes) as int;
    let nv = header_vecs(bytes) as int;
    IndexModel {
        centroids: Seq::new(
            nc as nat,
            |c: int|
                Seq::new(
                    14,
                    |j: int| FloatBits { bits: u32_at(bytes, 32 + c * 56 + j * 4) },
                ),
        ),
        offsets: Seq::new((nc + 1) as nat, |i: int| u64_at(bytes, offsets_start(nc) + i * 8)),
        vectors: Seq::new(
            nv as nat,
            |v: int| Seq::new(14, |j: int| signed(bytes[vectors_start(nc) + v * 14 + j])),
        ),
        labels: Seq::new(nv as nat, |v: int| bytes[labels_start(nc, nv) + v] == 1),
    }
}

impl Header {
    /// The header of an accepted file.
    pub open spec fn describes(self, bytes: Seq<u8>) -> bool {
        &&& self.num_vecs == header_vecs(bytes)
        &&& self.num_cents == header_cents(bytes)
        &&& self.default_probes == header_probes(bytes)
        &&& self.offset_off == offsets_start(self.num_cents as int)
        &&& self.vec_off == vectors_start(self.num_cents as int)
        &&& self.label_off == labels_start(self.num_cents as int, self.num_vecs as int)
        &&& self.label_off + self.num_vecs <= bytes.len()
    }
}

/// Reads the `u32` at `at`.
pub fn read_u32(bytes: &[u8], at: usize) -> (x: u32)
    requires
        at + 4 <= bytes.len(),
    ensures
        x == u32_at(bytes@, at as int),
{
    u32_from_le_bytes(slice_subrange(bytes, at, at + 4))
}

/// Reads the `u64` at `at`.
pub fn read_u64(bytes: &[u8], at: usize) -> (x: u64)
    requires
        at + 8 <= bytes.len(),
    ensures
        x == u64_at(bytes@, at as int),
{
    u64_from_le_bytes(slice_subrange(bytes, at, at + 8))
}

/// Reads a byte as an int8 value.
pub fn read_i8(b: u8) -> (x: i8)
    ensures
        x == signed(b),
{
    assert(b < 128 ==> b as i8 == b) by (bit_vector);
    assert(b >= 128 ==> b as i8 == b - 256) by (bit_vector);
    b as i8
}

/// The byte that stands for an int8 value.
pub fn byte_of(x: i8) -> (b: u8)
    ensures
        b == unsigned(x),
{
    assert(x >= 0 ==> x as u8 == x) by (bit_vector);
    assert(x < 0 ==> x as u8 == x + 256) by (bit_vector);
    x as u8
}

/// Checks a file's header against its size.
pub fn read_header(bytes: &[u8]) -> (res: Result<Header, LoadError>)
    ensures
        match res {
            Ok(h) => header_error(bytes@) is None && h.describes(bytes@),
            Err(e) => header_error(bytes@) == Some(e),
        },
        bytes.len() < 32 ==> res == Err::<Header, LoadError>(LoadError::TooSmallForHeader),
        bytes.len() >= 32 ==> ({
            let magic = bytes@.take(4) == seq![0x49u8, 0x56u8, 0x46u8, 0x58u8];
            let version = vstd::bytes::spec_u32_from_le_bytes(bytes@.subrange(4, 8));
            let vecs = vstd::bytes::spec_u64_from_le_bytes(bytes@.subrange(8, 16));
            let cents = vstd::bytes::spec_u32_from_le_bytes(bytes@.subrange(16, 20));
            let dims = vstd::bytes::spec_u32_from_le_bytes(bytes@.subrange(20, 24));
            let probes = vstd::bytes::spec_u32_from_le_bytes(bytes@.subrange(24, 28));
            let need = 32 + cents * 56 + (cents + 1) * 8 + vecs * 14 + vecs;
            &&& !magic ==> res == Err::<Header, LoadError>(
                LoadError::BadMagic { found: (bytes[0], bytes[1], bytes[2], bytes[3]) },
            )
            &&& magic && version != 1 ==> res == Err::<Header, LoadError>(
                LoadError::UnsupportedVersion { version },
            )
            &&& magic && version == 1 && dims != 14 ==> res == Err::<Header, LoadError>(
                LoadError::WrongDims { dims },
            )
            &&& magic && version == 1 && dims == 14 && bytes.len() < need ==> res == Err::<
                Header,
                LoadError,
            >(LoadError::FileTooSmall { need: need as u128, got: bytes.len() })
            &&& magic && version == 1 && dims == 14 && bytes.len() >= need ==> {
                &&& res matches Ok(h)
                &&& h.num_vecs == vecs
                &&& h.num_cents == cents
                &&& h.default_probes == probes
                &&& h.offset_off == 32 + cents * 56
                &&& h.vec_off == 32 + cents * 56 + (cents + 1) * 8
                &&& h.label_off == 32 + cents * 56 + (cents + 1) * 8 + vecs * 14
            }
        }),
{
    proof {
        let magic = seq![0x49u8, 0x56u8, 0x46u8, 0x58u8];
        if bytes.len() >= 32 {
            if has_magic(bytes@) {
                assert(bytes@.take(4) =~= magic);
            } else if bytes@.take(4) == magic {
                assert forall|i: int| 0 <= i < 4 implies #[trigger] bytes@[i] == magic[i] by {
                    assert(bytes@.take(4)[i] == magic[i]);
                }
                assert(bytes@[0] == 0x49 && bytes@[1] == 0x56 && bytes@[2] == 0x46 && bytes@[3]
                    == 0x58);
            }
        }
    }
    if bytes.len() < 32 {
        return Err(LoadError::TooSmallForHeader);
    }
    if !(bytes[0] == 0x49 && bytes[1] == 0x56 && bytes[2] == 0x46 && bytes[3] == 0x58) {
        return Err(LoadError::BadMagic { found: (bytes[0], bytes[1], bytes[2], bytes[3]) });
    }
    let version: u32 = read_u32(bytes, 4);
    if version != 1 {
        return Err(LoadError::UnsupportedVersion { version });
    }
    let num_vecs: u64 = read_u64(bytes, 8);
    let num_cents: u32 = read_u32(bytes, 16);
    let dims: u32 = read_u32(bytes, 20);
    if dims != 14 {
        return Err(LoadError::WrongDims { dims });
    }
    let default_probes: u32 = read_u32(bytes, 24);
    let offset_off: u128 = 32 + (num_cents as u128) * 56;
    let vec_off: u128 = offset_off + (num_cents as u128 + 1) * 8;
    let label_off: u128 = vec_off + (num_vecs as u128) * 14;
    let need: u128 = label_off + num_vecs as u128;
    if (bytes.len() as u128) < need {
        return Err(LoadError::FileTooSmall { need, got: bytes.len() });
    }
    Ok(
        Header {
            num_vecs: num_vecs as usize,
            num_cents: num_cents as usize,
            default_probes: default_probes as usize,
            offset_off: offset_off as usize,
            vec_off: vec_off as usize,
            label_off: label_off as usize,
        },
    )
}

/// A reference vector as it is stored: quantized, with its label.
#[derive(Clone, Copy, PartialEq, Eq, Debug)]
pub struct Entry {
    pub vec: [i8; DIMS],
    pub is_fraud: bool,
}

/// All entries, cluster after cluster.
pub open spec fn flat(clusters: Seq<Vec<Entry>>) -> Seq<Entry>
    decreases clusters.len(),
{
    if clusters.len() == 0 {
        Seq::empty()
    } else {
        flat(clusters.drop_last()) + clusters.last()@
    }
}

/// The index of the first vector of cluster `i`; for `i` the number of
/// clusters, the number of vectors.
pub open spec fn cluster_start(clusters: Seq<Vec<Entry>>, i: int) -> nat {
    flat(clusters.take(i)).len()
}

/// The 32 bytes of a header.
pub open spec fn header_bytes(num_vecs: u64, num_centroids: u32, default_probes: u32) -> Seq<u8> {
    seq![0x49u8, 0x56u8, 0x46u8, 0x58u8] + vstd::bytes::spec_u32_to_le_bytes(1)
        + vstd::bytes::spec_u64_to_le_bytes(num_vecs) + vstd::bytes::spec_u32_to_le_bytes(
        num_centroids,
    ) + vstd::bytes::spec_u32_to_le_bytes(14) + vstd::bytes::spec_u32_to_le_bytes(default_probes)
        + vstd::bytes::spec_u32_to_le_bytes(0)
}

/// The bytes of the centroids.
pub open spec fn centroid_bytes(centroids: Seq<[FloatBits; DIMS]>) -> Seq<u8> {
    Seq::new(
        centroids.len() * 56,
        |i: int|
            vstd::bytes::spec_u32_to_le_bytes(centroids[i / 56][i % 56 / 4].bits)[i % 56 % 4],
    )
}

/// The bytes of the cluster offsets, up to and with the closing one.
pub open spec fn offset_bytes(clusters: Seq<Vec<Entry>>) -> Seq<u8> {
    Seq::new(
        (clusters.len() + 1) * 8,
        |i: int|
            vstd::bytes::spec_u64_to_le_bytes(cluster_start(clusters, i / 8) as u64)[i % 8],
    )
}

/// The bytes of the quantized vectors.
pub open spec fn vector_bytes(entries: Seq<Entry>) -> Seq<u8> {
    Seq::new(entries.len() * 14, |i: int| unsigned(entries[i / 14].vec[i % 14]))
}

/// The bytes of the labels.
pub open spec fn label_bytes(entries: Seq<Entry>) -> Seq<u8> {
    Seq::new(
        entries.len(),
        |i: int|
            if entries[i].is_fraud {
                1u8
            } else {
                0u8
            },
    )
}

/// The bytes of an index file.
pub open spec fn index_bytes(
    centroids: Seq<[FloatBits; DIMS]>,
    clusters: Seq<Vec<Entry>>,
    num_vecs: u64,
    num_centroids: u32,
    default_probes: u32,
) -> Seq<u8> {
    header_bytes(num_vecs, num_centroids, default_probes) + centroid_bytes(centroids)
        + offset_bytes(clusters) + vector_bytes(flat(clusters)) + label_bytes(flat(clusters))
}

/// What an index built from these centroids and clusters holds.
pub open spec fn built_model(
    centroids: Seq<[FloatBits; DIMS]>,
    clusters: Seq<Vec<Entry>>,
) -> IndexModel {
    IndexModel {
        centroids: centroids.map_values(|c: [FloatBits; DIMS]| c@),
        offsets: Seq::new(clusters.len() + 1, |i: int| cluster_start(clusters, i) as u64),
        vectors: flat(clusters).map_values(|e: Entry| e.vec@),
        labels: flat(clusters).map_values(|e: Entry| e.is_fraud),
    }
}

fn push_all(out: &mut Vec<u8>, more: Vec<u8>)
    ensures
        final(out)@ == old(out)@ + more@,
{
    let mut more: Vec<u8> = more;
    out.append(&mut more);
}

proof fn lemma_flat_take(clusters: Seq<Vec<Entry>>, i: int)
    requires
        0 <= i < clusters.len(),
    ensures
        flat(clusters.take(i + 1)) == flat(clusters.take(i)) + clusters[i]@,
{
    assert(clusters.take(i + 1).drop_last() =~= clusters.take(i));
}

/// The clusters before cluster `i` take no more room than all of them.
proof fn lemma_cluster_start_bound(clusters: Seq<Vec<Entry>>, i: int)
    requires
        0 <= i <= clusters.len(),
    ensures
        cluster_start(clusters, i) <= flat(clusters).len(),
    decreases clusters.len() - i,
{
    if i < clusters.len() {
        lemma_flat_take(clusters, i);
        lemma_cluster_start_bound(clusters, i + 1);
    } else {
        assert(clusters.take(i) =~= clusters);
    }
}

fn push_header(out: &mut Vec<u8>, num_vecs: u64, num_centroids: u32, default_probes: u32)
    ensures
        final(out)@ == old(out)@ + header_bytes(num_vecs, num_centroids, default_probes),
{
    out.push(0x49);
    out.push(0x56);
    out.push(0x46);
    out.push(0x58);
    assert(out@ =~= old(out)@ + seq![0x49u8, 0x56u8, 0x46u8, 0x58u8]);
    push_all(out, u32_to_le_bytes(1));
    push_all(out, u64_to_le_bytes(num_vecs));
    push_all(out, u32_to_le_bytes(num_centroids));
    push_all(out, u32_to_le_bytes(14));
    push_all(out, u32_to_le_bytes(default_probes));
    push_all(out, u32_to_le_bytes(0));
    assert(out@ =~= old(out)@ + header_bytes(num_vecs, num_centroids, default_probes));
}

fn push_centroids(out: &mut Vec<u8>, centroids: &Vec<[FloatBits; DIMS]>)
    ensures
        final(out)@ == old(out)@ + centroid_bytes(centroids@),
{
    let ghost base = out@;
    let ghost all = centroid_bytes(centroids@);
    let mut c: usize = 0;
    assert(out@ =~= base + all.take(0));
    while c < centroids.len()
        invariant
            c <= centroids.len(),
            all == centroid_bytes(centroids@),
            out@ == base + all.take(c * 56),
        decreases centroids.len() - c,
    {
        let mut j: usize = 0;
        while j < DIMS
            invariant
                c < centroids.len(),
                j <= DIMS,
                all == centroid_bytes(centroids@),
                out@ == base + all.take(c * 56 + j * 4),
            decreases DIMS - j,
        {
            let ghost at = c * 56 + j * 4;
            let word: Vec<u8> = u32_to_le_bytes(centroids[c][j].bits);
            assert forall|i: int| 0 <= i < 4 implies #[trigger] all[at + i] == word[i] by {
                assert((at + i) / 56 == c && (at + i) % 56 == j * 4 + i);
            }
            push_all(out, word);
            assert(all.take(at) + word@ =~= all.take(at + 4));
            assert(out@ =~= base + all.take(at + 4));
            j = j + 1;
        }
        c = c + 1;
    }
    assert(all.take(centroids.len() * 56) =~= all);
}

fn push_offsets(out: &mut Vec<u8>, clusters: &Vec<Vec<Entry>>)
    requires
        flat(clusters@).len() <= u64::MAX,
    ensures
        final(out)@ == old(out)@ + offset_bytes(clusters@),
{
    let ghost base = out@;
    let ghost all = offset_bytes(clusters@);
    let mut cur: u64 = 0;
    let mut i: usize = 0;
    assert(out@ =~= base + all.take(0));
    assert(clusters@.take(0) =~= Seq::empty());
    while i < clusters.len()
        invariant
            i <= clusters.len(),
            flat(clusters@).len() <= u64::MAX,
            all == offset_bytes(clusters@),
            cur == cluster_start(clusters@, i as int),
            out@ == base + all.take(i * 8),
        decreases clusters.len() - i,
    {
        let word: Vec<u8> = u64_to_le_bytes(cur);
        assert forall|b: int| 0 <= b < 8 implies #[trigger] all[i * 8 + b] == word[b] by {
            assert((i * 8 + b) / 8 == i && (i * 8 + b) % 8 == b);
        }
        push_all(out, word);
        assert(all.take(i * 8) + word@ =~= all.take(i * 8 + 8));
        assert(out@ =~= base + all.take(i * 8 + 8));
        proof {
            lemma_flat_take(clusters@, i as int);
            lemma_cluster_start_bound(clusters@, i + 1);
        }
        cur = cur + clusters[i].len() as u64;
        i = i + 1;
    }
    let word: Vec<u8> = u64_to_le_bytes(cur);
    assert forall|b: int| 0 <= b < 8 implies #[trigger] all[i * 8 + b] == word[b] by {
        assert((i * 8 + b) / 8 == i && (i * 8 + b) % 8 == b);
    }
    push_all(out, word);
    assert(all.take(i * 8) + word@ =~= all);
    assert(out@ =~= base + all);
}

proof fn lemma_vector_bytes_push(entries: Seq<Entry>, e: Entry)
    ensures
        vector_bytes(entries.push(e)) == vector_bytes(entries) + Seq::new(
            14,
            |j: int| unsigned(e.vec[j]),
        ),
{
    let grown = vector_bytes(entries.push(e));
    let parts = vector_bytes(entries) + Seq::new(14, |j: int| unsigned(e.vec[j]));
    assert(grown.len() == parts.len());
    assert forall|i: int| 0 <= i < grown.len() implies grown[i] == parts[i] by {
        if i < entries.len() * 14 {
            assert(i / 14 < entries.len());
        } else {
            let j = i - entries.len() * 14;
            assert(i / 14 == entries.len() && i % 14 == j);
        }
    }
    assert(grown =~= parts);
}

fn push_vectors(out: &mut Vec<u8>, clusters: &Vec<Vec<Entry>>)
    ensures
        final(out)@ == old(out)@ + vector_bytes(flat(clusters@)),
{
    let ghost base = out@;
    let mut c: usize = 0;
    assert(clusters@.take(0) =~= Seq::empty());
    assert(out@ =~= base + vector_bytes(flat(clusters@.take(0))));
    while c < clusters.len()
        invariant
            c <= clusters.len(),
            out@ == base + vector_bytes(flat(clusters@.take(c as int))),
        decreases clusters.len() - c,
    {
        let ghost before = flat(clusters@.take(c as int));
        let cluster: &Vec<Entry> = &clusters[c];
        let mut e: usize = 0;
        assert(before + cluster@.take(0) =~= before);
        while e < cluster.len()
            invariant
                e <= cluster.len(),
                out@ == base + vector_bytes(before + cluster@.take(e as int)),
            decreases cluster.len() - e,
        {
            let entry: Entry = cluster[e];
            let ghost row = Seq::new(14, |j: int| unsigned(entry.vec[j]));
            let ghost start = out@;
            let mut j: usize = 0;
            assert(out@ =~= start + row.take(0));
            while j < DIMS
                invariant
                    j <= DIMS,
                    row == Seq::new(14, |j: int| unsigned(entry.vec[j])),
                    out@ == start + row.take(j as int),
                decreases DIMS - j,
            {
                out.push(byte_of(entry.vec[j]));
                assert(out@ =~= start + row.take(j + 1));
                j = j + 1;
            }
            assert(row.take(14) =~= row);
            proof {
                lemma_vector_bytes_push(before + cluster@.take(e as int), entry);
            }
            assert((before + cluster@.take(e as int)).push(entry) =~= before + cluster@.take(e + 1));
            assert(out@ =~= base + vector_bytes(before + cluster@.take(e + 1)));
            e = e + 1;
        }
        assert(cluster@.take(cluster.len() as int) =~= cluster@);
        proof {
            lemma_flat_take(clusters@, c as int);
        }
        c = c + 1;
    }
    assert(clusters@.take(clusters.len() as int) =~= clusters@);
}

fn push_labels(out: &mut Vec<u8>, clusters: &Vec<Vec<Entry>>)
    ensures
        final(out)@ == old(out)@ + label_bytes(flat(clusters@)),
{
    let ghost base = out@;
    let mut c: usize = 0;
    assert(clusters@.take(0) =~= Seq::empty());
    assert(out@ =~= base + label_bytes(flat(clusters@.take(0))));
    while c < clusters.len()
        invariant
            c <= clusters.len(),
            out@ == base + label_bytes(flat(clusters@.take(c as int))),
        decreases clusters.len() - c,
    {
        let ghost before = flat(clusters@.take(c as int));
        let cluster: &Vec<Entry> = &clusters[c];
        let mut e: usize = 0;
        assert(before + cluster@.take(0) =~= before);
        while e < cluster.len()
            invariant
                e <= cluster.len(),
                out@ == base + label_bytes(before + cluster@.take(e as int)),
            decreases cluster.len() - e,
        {
            let label: u8 = if cluster[e].is_fraud {
                1
            } else {
                0
            };
            out.push(label);
            assert(out@ =~= base + label_bytes(before + cluster@.take(e + 1)));
            e = e + 1;
        }
        assert(cluster@.take(cluster.len() as int) =~= cluster@);
        proof {
            lemma_flat_take(clusters@, c as int);
        }
        c = c + 1;
    }
    assert(clusters@.take(clusters.len() as int) =~= clusters@);
}

/// The bytes of an index file. The declared number of vectors must be the
/// number of entries in the clusters.
pub fn write_index(
    centroids: &Vec<[FloatBits; DIMS]>,
    clusters: &Vec<Vec<Entry>>,
    num_vecs: u64,
    num_centroids: u32,
    default_probes: u32,
) -> (out: Vec<u8>)
    requires
        flat(clusters@).len() == num_vecs,
    ensures
        out@ == index_bytes(centroids@, clusters@, num_vecs, num_centroids, default_probes),
{
    let mut out: Vec<u8> = Vec::new();
    push_header(&mut out, num_vecs, num_centroids, default_probes);
    push_centroids(&mut out, centroids);
    push_offsets(&mut out, clusters);
    push_vectors(&mut out, clusters);
    push_labels(&mut out, clusters);
    assert(out@ =~= index_bytes(
        centroids@,
        clusters@,
        num_vecs,
        num_centroids,
        default_probes,
    ));
    out
}

proof fn lemma_header_fields(bytes: Seq<u8>, num_vecs: u64, num_centroids: u32, default_probes: u32)
    requires
        bytes.len() >= 32,
        bytes.take(32) == header_bytes(num_vecs, num_centroids, default_probes),
    ensures
        has_magic(bytes),
        u32_at(bytes, 4) == 1,
        header_vecs(bytes) == num_vecs,
        header_cents(bytes) == num_centroids,
        u32_at(bytes, 20) == 14,
        header_probes(bytes) == default_probes,
        u32_at(bytes, 28) == 0,
{
    vstd::bytes::lemma_auto_spec_u32_to_from_le_bytes();
    vstd::bytes::lemma_auto_spec_u64_to_from_le_bytes();
    let h = header_bytes(num_vecs, num_centroids, default_probes);
    assert forall|i: int| 0 <= i < 32 implies #[trigger] bytes[i] == h[i] by {
        assert(bytes.take(32)[i] == bytes[i]);
    }
    assert(bytes.subrange(4, 8) =~= vstd::bytes::spec_u32_to_le_bytes(1));
    assert(bytes.subrange(8, 16) =~= vstd::bytes::spec_u64_to_le_bytes(num_vecs));
    assert(bytes.subrange(16, 20) =~= vstd::bytes::spec_u32_to_le_bytes(num_centroids));
    assert(bytes.subrange(20, 24) =~= vstd::bytes::spec_u32_to_le_bytes(14));
    assert(bytes.subrange(24, 28) =~= vstd::bytes::spec_u32_to_le_bytes(default_probes));
    assert(bytes.subrange(28, 32) =~= vstd::bytes::spec_u32_to_le_bytes(0));
}

/// Loading what was written gives back what was written: a written file has
/// the documented size, passes every check, and decodes to the centroids, the
/// cluster offsets, the vectors in cluster order and the labels that went in.
pub proof fn lemma_index_round_trip(
    centroids: Seq<[FloatBits; DIMS]>,
    clusters: Seq<Vec<Entry>>,
    num_vecs: u64,
    num_centroids: u32,
    default_probes: u32,
)
    requires
        centroids.len() == num_centroids,
        clusters.len() == num_centroids,
        flat(clusters).len() == num_vecs,
    ensures
        ({
            let bytes = index_bytes(centroids, clusters, num_vecs, num_centroids, default_probes);
            &&& bytes.len() == file_len(num_centroids as int, num_vecs as int)
            &&& header_error(bytes) is None
            &&& header_probes(bytes) == default_probes
            &&& decode(bytes) == built_model(centroids, clusters)
        }),
{
    vstd::bytes::lemma_auto_spec_u32_to_from_le_bytes();
    vstd::bytes::lemma_auto_spec_u64_to_from_le_bytes();
    let bytes = index_bytes(centroids, clusters, num_vecs, num_centroids, default_probes);
    let entries = flat(clusters);
    let nc = num_centroids as int;
    let nv = num_vecs as int;
    let head = header_bytes(num_vecs, num_centroids, default_probes);
    assert(head.len() == 32);
    assert(bytes.take(32) =~= head);
    lemma_header_fields(bytes, num_vecs, num_centroids, default_probes);
    let model = decode(bytes);
    let built = built_model(centroids, clusters);
    assert forall|c: int| 0 <= c < nc implies #[trigger] model.centroids[c]
        == built.centroids[c] by {
        assert forall|j: int| 0 <= j < 14 implies #[trigger] model.centroids[c][j]
            == built.centroids[c][j] by {
            let at = c * 56 + j * 4;
            let word = vstd::bytes::spec_u32_to_le_bytes(centroids[c][j].bits);
            let part = bytes.subrange(32 + at, 32 + at + 4);
            assert forall|b: int| 0 <= b < 4 implies part[b] == word[b] by {
                assert((at + b) / 56 == c && (at + b) % 56 == j * 4 + b);
                assert(bytes[32 + (at + b)] == centroid_bytes(centroids)[at + b]);
            }
            assert(part =~= word);
        }
        assert(model.centroids[c] =~= built.centroids[c]);
    }
    assert forall|i: int| 0 <= i < nc + 1 implies #[trigger] model.offsets[i]
        == built.offsets[i] by {
        let word = vstd::bytes::spec_u64_to_le_bytes(cluster_start(clusters, i) as u64);
        let at = offsets_start(nc) + i * 8;
        let part = bytes.subrange(at, at + 8);
        assert forall|b: int| 0 <= b < 8 implies part[b] == word[b] by {
            assert((i * 8 + b) / 8 == i && (i * 8 + b) % 8 == b);
            assert(bytes[offsets_start(nc) + (i * 8 + b)] == offset_bytes(clusters)[i * 8 + b]);
        }
        assert(part =~= word);
    }
    assert forall|v: int| 0 <= v < nv implies #[trigger] model.vectors[v] == built.vectors[v] by {
        assert forall|j: int| 0 <= j < 14 implies #[trigger] model.vectors[v][j]
            == built.vectors[v][j] by {
            assert((v * 14 + j) / 14 == v && (v * 14 + j) % 14 == j);
            assert(bytes[vectors_start(nc) + (v * 14 + j)] == vector_bytes(entries)[v * 14 + j]);
        }
        assert(model.vectors[v] =~= built.vectors[v]);
    }
    assert forall|v: int| 0 <= v < nv implies #[trigger] model.labels[v] == built.labels[v] by {
        assert(bytes[labels_start(nc, nv) + v] == label_bytes(entries)[v]);
    }
    assert(model.centroids =~= built.centroids);
    assert(model.offsets =~= built.offsets);
    assert(model.vectors =~= built.vectors);
    assert(model.labels =~= built.labels);
}

/// The clusters cut the vectors into consecutive ranges: the first offset is 0,
/// none is below the one before, and the last is the number of vectors.
pub open spec fn is_partitioned(m: IndexModel) -> bool {
    &&& m.offsets.len() == m.centroids.len() + 1
    &&& m.labels.len() == m.vectors.len()
    &&& m.offsets[0] == 0
    &&& m.offsets[m.centroids.len() as int] == m.vectors.len()
    &&& forall|i: int, j: int|
        0 <= i <= j < m.offsets.len() ==> #[trigger] m.offsets[i] <= #[trigger] m.offsets[j]
}

/// A written index is partitioned into its clusters.
pub proof fn lemma_built_is_partitioned(
    centroids: Seq<[FloatBits; DIMS]>,
    clusters: Seq<Vec<Entry>>,
)
    requires
        centroids.len() == clusters.len(),
        flat(clusters).len() <= u64::MAX,
    ensures
        is_partitioned(built_model(centroids, clusters)),
{
    let built = built_model(centroids, clusters);
    assert(clusters.take(0) =~= Seq::empty());
    assert(clusters.take(clusters.len() as int) =~= clusters);
    assert forall|i: int, j: int| 0 <= i <= j < built.offsets.len() implies #[trigger]
        built.offsets[i] <= #[trigger] built.offsets[j] by {
        lemma_cluster_start_bound(clusters.take(j), i);
        assert(clusters.take(j).take(i) =~= clusters.take(i));
        lemma_cluster_start_bound(clusters, i);
        lemma_cluster_start_bound(clusters, j);
    }
}

/// In a written index, the range of vectors from the offset of cluster `i` to
/// the next offset holds the entries of cluster `i`, in order.
pub proof fn lemma_cluster_range(
    centroids: Seq<[FloatBits; DIMS]>,
    clusters: Seq<Vec<Entry>>,
    i: int,
)
    requires
        flat(clusters).len() <= u64::MAX,
        0 <= i < clusters.len(),
    ensures
        ({
            let built = built_model(centroids, clusters);
            let start = built.offsets[i] as int;
            &&& built.offsets[i + 1] - start == clusters[i].len()
            &&& forall|e: int|
                0 <= e < clusters[i].len() ==> {
                    &&& built.vectors[start + e] == (#[trigger] clusters[i][e]).vec@
                    &&& built.labels[start + e] == clusters[i][e].is_fraud
                }
        }),
{
    lemma_cluster_start_bound(clusters, i);
    lemma_cluster_start_bound(clusters, i + 1);
    lemma_flat_take(clusters, i);
    lemma_flat_prefix(clusters, i + 1);
    let start = cluster_start(clusters, i) as int;
    assert forall|e: int| 0 <= e < clusters[i].len() implies flat(clusters)[start + e]
        == #[trigger] clusters[i][e] by {
        assert(flat(clusters.take(i + 1))[start + e] == clusters[i][e]);
    }
}

proof fn lemma_flat_prefix(clusters: Seq<Vec<Entry>>, i: int)
    requires
        0 <= i <= clusters.len(),
    ensures
        flat(clusters.take(i)).len() <= flat(clusters).len(),
        flat(clusters.take(i)) == flat(clusters).take(flat(clusters.take(i)).len() as int),
    decreases clusters.len() - i,
{
    if i < clusters.len() {
        lemma_flat_take(clusters, i);
        lemma_flat_prefix(clusters, i + 1);
        assert(flat(clusters.take(i)) =~= flat(clusters).take(
            flat(clusters.take(i)).len() as int,
        ));
    } else {
        assert(clusters.take(i) =~= clusters);
        assert(flat(clusters) =~= flat(clusters).take(flat(clusters).len() as int));
    }
}

/// A written index can be loaded and searched, whatever the query: once loaded,
/// every cluster that a search may probe can be scanned.
pub proof fn lemma_written_is_searchable(
    centroids: Seq<[FloatBits; DIMS]>,
    clusters: Seq<Vec<Entry>>,
    num_vecs: u64,
    num_centroids: u32,
    default_probes: u32,
    cent_keys: Seq<u32>,
    probes: nat,
)
    requires
        centroids.len() == num_centroids,
        clusters.len() == num_centroids,
        flat(clusters).len() == num_vecs,
        cent_keys.len() == num_centroids,
        num_centroids <= usize::MAX,
    ensures
        ({
            let bytes = index_bytes(centroids, clusters, num_vecs, num_centroids, default_probes);
            &&& header_error(bytes) is None
            &&& decode(bytes).centroids.len() == cent_keys.len()
            &&& crate::scan::all_in_range(decode(bytes), crate::scan::probed(cent_keys, probes))
        }),
{
    lemma_index_round_trip(centroids, clusters, num_vecs, num_centroids, default_probes);
    lemma_built_is_partitioned(centroids, clusters);
    crate::nearest::lemma_nearest_order_exists(
        cent_keys,
        crate::scan::probe_count(probes, cent_keys.len()),
    );
    crate::scan::lemma_partitioned_in_range(
        built_model(centroids, clusters),
        crate::scan::probed(cent_keys, probes),
    );
}

/// What an accepted file holds is read off its bytes at the documented places:
/// the numbers of the centroids and the cluster offsets are little-endian, the
/// vectors are int8 in two's complement, and a vector is fraud where its label
/// byte is 1.
pub proof fn lemma_decoded_places(bytes: Seq<u8>, c: int, i: int, v: int, j: int)
    ensures
        ({
            let vecs = vstd::bytes::spec_u64_from_le_bytes(bytes.subrange(8, 16)) as int;
            let cents = vstd::bytes::spec_u32_from_le_bytes(bytes.subrange(16, 20)) as int;
            let offsets = 32 + cents * 56;
            let vectors = offsets + (cents + 1) * 8;
            let labels = vectors + vecs * 14;
            let m = decode(bytes);
            &&& m.centroids.len() == cents
            &&& m.offsets.len() == cents + 1
            &&& m.vectors.len() == vecs
            &&& m.labels.len() == vecs
            &&& 0 <= c < cents ==> m.centroids[c].len() == 14
            &&& 0 <= c < cents && 0 <= j < 14 ==> m.centroids[c][j].bits
                == vstd::bytes::spec_u32_from_le_bytes(
                bytes.subrange(32 + (c * 14 + j) * 4, 32 + (c * 14 + j) * 4 + 4),
            )
            &&& 0 <= i <= cents ==> m.offsets[i] == vstd::bytes::spec_u64_from_le_bytes(
                bytes.subrange(offsets + i * 8, offsets + i * 8 + 8),
            )
            &&& 0 <= v < vecs ==> m.vectors[v].len() == 14
            &&& 0 <= v < vecs && 0 <= j < 14 ==> {
                let b = bytes[vectors + v * 14 + j];
                m.vectors[v][j] == if b < 128 {
                    b as int
                } else {
                    b - 256
                }
            }
            &&& 0 <= v < vecs ==> (m.labels[v] <==> bytes[labels + v] == 1)
        }),
{
}

/// A written file starts with the magic, the version, the declared numbers and
/// a zero, and is as long as its five sections.
pub proof fn lemma_written_header(
    centroids: Seq<[FloatBits; DIMS]>,
    clusters: Seq<Vec<Entry>>,
    num_vecs: u64,
    num_centroids: u32,
    default_probes: u32,
)
    ensures
        ({
            let bytes = index_bytes(centroids, clusters, num_vecs, num_centroids, default_probes);
            &&& bytes.len() == 32 + centroids.len() * 56 + (clusters.len() + 1) * 8 + flat(
                clusters,
            ).len() * 15
            &&& bytes.subrange(0, 4) == seq![0x49u8, 0x56u8, 0x46u8, 0x58u8]
            &&& bytes.subrange(4, 8) == vstd::bytes::spec_u32_to_le_bytes(1)
            &&& bytes.subrange(8, 16) == vstd::bytes::spec_u64_to_le_bytes(num_vecs)
            &&& bytes.subrange(16, 20) == vstd::bytes::spec_u32_to_le_bytes(num_centroids)
            &&& bytes.subrange(20, 24) == vstd::bytes::spec_u32_to_le_bytes(14)
            &&& bytes.subrange(24, 28) == vstd::bytes::spec_u32_to_le_bytes(default_probes)
            &&& bytes.subrange(28, 32) == vstd::bytes::spec_u32_to_le_bytes(0)
        }),
{
    vstd::bytes::lemma_auto_spec_u32_to_from_le_bytes();
    vstd::bytes::lemma_auto_spec_u64_to_from_le_bytes();
    let bytes = index_bytes(centroids, clusters, num_vecs, num_centroids, default_probes);
    let head = header_bytes(num_vecs, num_centroids, default_probes);
    assert(head.len() == 32);
    assert forall|i: int| 0 <= i < 32 implies #[trigger] bytes[i] == head[i] by {}
    assert(bytes.subrange(0, 4) =~= seq![0x49u8, 0x56u8, 0x46u8, 0x58u8]);
    assert(bytes.subrange(4, 8) =~= vstd::bytes::spec_u32_to_le_bytes(1));
    assert(bytes.subrange(8, 16) =~= vstd::bytes::spec_u64_to_le_bytes(num_vecs));
    assert(bytes.subrange(16, 20) =~= vstd::bytes::spec_u32_to_le_bytes(num_centroids));
    assert(bytes.subrange(20, 24) =~= vstd::bytes::spec_u32_to_le_bytes(14));
    assert(bytes.subrange(24, 28) =~= vstd::bytes::spec_u32_to_le_bytes(default_probes));
    assert(bytes.subrange(28, 32) =~= vstd::bytes::spec_u32_to_le_bytes(0));
}

/// A written file holds number `j` of centroid `c` in four bytes and the offset
/// of cluster `i` in eight. The first offset is 0, and each cluster moves the
/// next one on by its size.
pub proof fn lemma_written_numbers(
    centroids: Seq<[FloatBits; DIMS]>,
    clusters: Seq<Vec<Entry>>,
    num_vecs: u64,
    num_centroids: u32,
    default_probes: u32,
    c: int,
    j: int,
    i: int,
)
    requires
        flat(clusters).len() <= u64::MAX,
    ensures
        ({
            let bytes = index_bytes(centroids, clusters, num_vecs, num_centroids, default_probes);
            let number = 32 + c * 56 + j * 4;
            let offset = 32 + centroids.len() * 56 + i * 8;
            &&& 0 <= c < centroids.len() && 0 <= j < 14 ==> bytes.subrange(number, number + 4)
                == vstd::bytes::spec_u32_to_le_bytes(centroids[c][j].bits)
            &&& 0 <= i <= clusters.len() ==> bytes.subrange(offset, offset + 8)
                == vstd::bytes::spec_u64_to_le_bytes(cluster_start(clusters, i) as u64)
            &&& cluster_start(clusters, 0) == 0
            &&& 0 <= i < clusters.len() ==> cluster_start(clusters, i + 1) == cluster_start(
                clusters,
                i,
            ) + clusters[i].len()
            &&& cluster_start(clusters, clusters.len() as int) == flat(clusters).len()
        }),
{
    vstd::bytes::lemma_auto_spec_u32_to_from_le_bytes();
    vstd::bytes::lemma_auto_spec_u64_to_from_le_bytes();
    let bytes = index_bytes(centroids, clusters, num_vecs, num_centroids, default_probes);
    let head = header_bytes(num_vecs, num_centroids, default_probes);
    assert(head.len() == 32);
    assert(clusters.take(0) =~= Seq::empty());
    assert(clusters.take(clusters.len() as int) =~= clusters);
    if 0 <= c < centroids.len() && 0 <= j < 14 {
        let at = c * 56 + j * 4;
        let word = vstd::bytes::spec_u32_to_le_bytes(centroids[c][j].bits);
        let part = bytes.subrange(32 + at, 32 + at + 4);
        assert forall|b: int| 0 <= b < 4 implies part[b] == word[b] by {
            assert((at + b) / 56 == c && (at + b) % 56 == j * 4 + b);
            assert(bytes[32 + (at + b)] == centroid_bytes(centroids)[at + b]);
        }
        assert(part =~= word);
    }
    if 0 <= i <= clusters.len() {
        let word = vstd::bytes::spec_u64_to_le_bytes(cluster_start(clusters, i) as u64);
        let base = 32 + centroids.len() * 56;
        let part = bytes.subrange(base + i * 8, base + i * 8 + 8);
        assert forall|b: int| 0 <= b < 8 implies part[b] == word[b] by {
            assert((i * 8 + b) / 8 == i && (i * 8 + b) % 8 == b);
            assert(bytes[base + (i * 8 + b)] == offset_bytes(clusters)[i * 8 + b]);
        }
        assert(part =~= word);
        if i < clusters.len() {
            lemma_flat_take(clusters, i);
        }
    }
}

/// A written file holds entry `e` of cluster `c` after the entries before it:
/// its values as bytes in two's complement, and 1 or 0 for its label.
pub proof fn lemma_written_entry(
    centroids: Seq<[FloatBits; DIMS]>,
    clusters: Seq<Vec<Entry>>,
    num_vecs: u64,
    num_centroids: u32,
    default_probes: u32,
    c: int,
    e: int,
    j: int,
)
    requires
        0 <= c < clusters.len(),
        0 <= e < clusters[c].len(),
        0 <= j < 14,
        flat(clusters).len() <= u64::MAX,
    ensures
        ({
            let bytes = index_bytes(centroids, clusters, num_vecs, num_centroids, default_probes);
            let vectors = 32 + centroids.len() * 56 + (clusters.len() + 1) * 8;
            let labels = vectors + flat(clusters).len() * 14;
            let at = cluster_start(clusters, c) + e;
            let x = clusters[c][e].vec[j];
            &&& bytes[vectors + at * 14 + j] == if x >= 0 {
                x as int
            } else {
                x + 256
            }
            &&& bytes[labels + at] == if clusters[c][e].is_fraud {
                1int
            } else {
                0int
            }
        }),
{
    vstd::bytes::lemma_auto_spec_u32_to_from_le_bytes();
    vstd::bytes::lemma_auto_spec_u64_to_from_le_bytes();
    let bytes = index_bytes(centroids, clusters, num_vecs, num_centroids, default_probes);
    let head = header_bytes(num_vecs, num_centroids, default_probes);
    assert(head.len() == 32);
    let entries = flat(clusters);
    let at = cluster_start(clusters, c) + e;
    let vectors = 32 + centroids.len() * 56 + (clusters.len() + 1) * 8;
    let labels = vectors + entries.len() * 14;
    lemma_flat_take(clusters, c);
    lemma_flat_prefix(clusters, c + 1);
    assert(flat(clusters.take(c + 1))[at] == clusters[c][e]);
    assert(entries[at] == clusters[c][e]);
    assert((at * 14 + j) / 14 == at && (at * 14 + j) % 14 == j);
    assert(bytes[vectors + (at * 14 + j)] == vector_bytes(entries)[at * 14 + j]);
    assert(bytes[labels + at] == label_bytes(entries)[at]);
}

/// The numbers of a header stand at their documented places.
pub proof fn lemma_header_numbers(bytes: Seq<u8>)
    ensures
        header_vecs(bytes) == vstd::bytes::spec_u64_from_le_bytes(bytes.subrange(8, 16)),
        header_cents(bytes) == vstd::bytes::spec_u32_from_le_bytes(bytes.subrange(16, 20)),
        header_probes(bytes) == vstd::bytes::spec_u32_from_le_bytes(bytes.subrange(24, 28)),
{
}

} // verus!
