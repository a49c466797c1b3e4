use ivf_fraud::builder::{take_record, IndexBuilder, Reference};
use ivf_fraud::index_file::{write_index, Entry, LoadError};
use ivf_fraud::ivf_index::IvfIndex;
use ivf_fraud::quantize::{FloatBits, DIMS};
use ivf_fraud::searcher::Searcher;

fn fb(f: f32) -> FloatBits {
    FloatBits { bits: f.to_bits() }
}

fn row(f: f32) -> [FloatBits; DIMS] {
    [fb(f); DIMS]
}

fn small_file() -> Vec<u8> {
    let centroids = vec![row(0.0), row(1.0)];
    let clusters = vec![
        vec![Entry { vec: [0i8; DIMS], is_fraud: false }],
        vec![
            Entry { vec: [1i8; DIMS], is_fraud: true },
            Entry { vec: [-2i8; DIMS], is_fraud: false },
        ],
    ];
    write_index(&centroids, &clusters, 3, 2, 7)
}

fn searcher_error(bytes: &[u8]) -> LoadError {
    match Searcher::load(bytes, 1) {
        Ok(_) => panic!("accepted"),
        Err(e) => e,
    }
}

#[test]
fn write_index_header_magic_and_layout() {
    let centroids = vec![row(0.0)];
    let entry = Entry { vec: [0i8; DIMS], is_fraud: false };
    let clusters = vec![vec![entry]];

    let bytes = write_index(&centroids, &clusters, 1, 1, 3);

    // Magic
    assert_eq!(&bytes[0..4], b"IVFX", "wrong magic");
    // Version
    assert_eq!(u32::from_le_bytes(bytes[4..8].try_into().unwrap()), 1);
    // num_vecs
    assert_eq!(u64::from_le_bytes(bytes[8..16].try_into().unwrap()), 1);
    // num_centroids
    assert_eq!(u32::from_le_bytes(bytes[16..20].try_into().unwrap()), 1);
    // dims
    assert_eq!(u32::from_le_bytes(bytes[20..24].try_into().unwrap()), DIMS as u32);
    // default_probes
    assert_eq!(u32::from_le_bytes(bytes[24..28].try_into().unwrap()), 3);
    // reserved
    assert_eq!(u32::from_le_bytes(bytes[28..32].try_into().unwrap()), 0);
}

#[test]
fn write_index_cluster_offsets_sentinel() {
    let centroids = vec![row(0.0), row(1.0)];
    let clusters = vec![
        vec![Entry { vec: [0i8; DIMS], is_fraud: false }],
        vec![
            Entry { vec: [1i8; DIMS], is_fraud: true },
            Entry { vec: [2i8; DIMS], is_fraud: false },
        ],
    ];
    let num_vecs = 3u64;

    let bytes = write_index(&centroids, &clusters, num_vecs, 2, 3);

    // offset_off = 32 + num_centroids * DIMS * 4
    let offset_off = 32 + 2 * DIMS * 4;
    let off0 = u64::from_le_bytes(bytes[offset_off..offset_off + 8].try_into().unwrap());
    let off1 = u64::from_le_bytes(bytes[offset_off + 8..offset_off + 16].try_into().unwrap());
    let off2 = u64::from_le_bytes(bytes[offset_off + 16..offset_off + 24].try_into().unwrap());

    assert_eq!(off0, 0, "cluster 0 starts at 0");
    assert_eq!(off1, 1, "cluster 1 starts after cluster 0's 1 vector");
    assert_eq!(off2, 3, "sentinel == num_vecs");
}

#[test]
fn write_index_vectors_sorted_by_cluster() {
    let centroids = vec![row(0.0), row(1.0)];
    let mut first = [0i8; DIMS];
    first[0] = 10;
    let mut second = [0i8; DIMS];
    second[0] = 20;
    let clusters = vec![
        vec![Entry { vec: first, is_fraud: false }],
        vec![Entry { vec: second, is_fraud: true }],
    ];

    let bytes = write_index(&centroids, &clusters, 2, 2, 3);

    // vec_off = 32 + num_centroids * DIMS * 4 + (num_centroids + 1) * 8
    let vec_off = 32 + 2 * DIMS * 4 + 3 * 8;
    assert_eq!(bytes[vec_off] as i8, 10, "cluster-0 vector first byte");
    assert_eq!(bytes[vec_off + DIMS] as i8, 20, "cluster-1 vector first byte");

    let label_off = vec_off + 2 * DIMS;
    assert_eq!(bytes[label_off], 0, "cluster-0 label = legit");
    assert_eq!(bytes[label_off + 1], 1, "cluster-1 label = fraud");
}

#[test]
fn a_written_index_loads_as_it_was() {
    let bytes = small_file();
    assert_eq!(bytes.len(), 32 + 2 * 56 + 3 * 8 + 3 * 14 + 3);
    let index = match IvfIndex::load(&bytes) {
        Ok(i) => i,
        Err(e) => panic!("{}", e.message(" ")),
    };
    assert_eq!((index.num_cents, index.num_vecs, index.default_probes), (2, 3, 7));
    assert_eq!(index.centroids, vec![row(0.0), row(1.0)]);
    assert_eq!(index.offsets, vec![0, 1, 3]);
    assert_eq!(index.vecs, vec![[0i8; DIMS], [1i8; DIMS], [-2i8; DIMS]]);
    assert_eq!(index.labels, vec![false, true, false]);
}

#[test]
fn a_searcher_takes_its_probes_from_the_caller_or_the_file() {
    let bytes = small_file();
    let asked = Searcher::load(&bytes, 4).unwrap();
    assert_eq!((asked.probes(), asked.num_cents()), (4, 2));
    let default = Searcher::load(&bytes, 0).unwrap();
    assert_eq!(default.probes(), 7);
    assert_eq!(default.centroid(1, 13), fb(1.0));
    assert_eq!(default.centroid(0, 0), fb(0.0));
    assert!(default.ranges_are_valid());
    assert!(default.can_search(&vec![1, 2]));
    assert!(!default.can_search(&vec![1]));
}

#[test]
fn trailing_bytes_are_accepted() {
    let mut bytes = small_file();
    bytes.extend_from_slice(b"more");
    assert!(Searcher::load(&bytes, 1).is_ok());
    assert!(IvfIndex::load(&bytes).is_ok());
}

#[test]
fn a_short_file_has_no_header() {
    assert_eq!(searcher_error(&[0; 31]), LoadError::TooSmallForHeader);
    assert_eq!(LoadError::TooSmallForHeader.message(": "), "file too small for header");
}

#[test]
fn a_wrong_magic_is_refused() {
    let mut bytes = small_file();
    bytes[0] = 200;
    let e = searcher_error(&bytes);
    assert_eq!(e, LoadError::BadMagic { found: (200, b'V', b'F', b'X') });
    assert_eq!(e.message(": "), "bad magic: [200, 86, 70, 88]");
}

#[test]
fn a_wrong_version_is_refused() {
    let mut bytes = small_file();
    bytes[4] = 2;
    bytes[7] = 1;
    let e = searcher_error(&bytes);
    assert_eq!(e, LoadError::UnsupportedVersion { version: 0x0100_0002 });
    assert_eq!(e.message(": "), "unsupported version: 16777218");
    assert_eq!(e.message(" "), "unsupported version 16777218");
}

#[test]
fn a_wrong_number_of_dimensions_is_refused() {
    let mut bytes = small_file();
    bytes[20] = 15;
    let e = searcher_error(&bytes);
    assert_eq!(e, LoadError::WrongDims { dims: 15 });
    assert_eq!(e.message(": "), "expected 14 dims, got 15");
}

#[test]
fn a_cut_file_is_refused() {
    let mut bytes = small_file();
    bytes.pop();
    let e = searcher_error(&bytes);
    assert_eq!(e, LoadError::FileTooSmall { need: 213, got: 212 });
    assert_eq!(e.message(": "), "file too small: need 213, got 212");
    assert!(IvfIndex::load(&bytes).is_err());
}

#[test]
fn absurd_counts_are_refused_without_overflow() {
    let mut bytes = small_file();
    for b in &mut bytes[8..16] {
        *b = 0xff;
    }
    match searcher_error(&bytes) {
        LoadError::FileTooSmall { need, got } => {
            assert_eq!(need, 168 + 15 * u128::from(u64::MAX));
            assert_eq!(got, 213);
        }
        e => panic!("{}", e.message(": ")),
    }
}

#[test]
fn broken_ranges_are_noticed() {
    let mut bytes = small_file();
    // the sentinel points past the last vector
    bytes[32 + 2 * 56 + 16] = 4;
    let s = Searcher::load(&bytes, 1).unwrap();
    assert!(!s.ranges_are_valid());
    assert!(s.can_search(&vec![1, 2]));
    assert!(!s.can_search(&vec![2, 1]));
}

#[test]
fn records_are_cut_to_fourteen_numbers() {
    let numbers: Vec<FloatBits> = (0..16).map(|i| fb(i as f32)).collect();
    let r = take_record(&numbers, &"fraud".to_string()).unwrap();
    assert_eq!(r.vec[13], fb(13.0));
    assert!(r.is_fraud);
    assert!(!take_record(&numbers, &"Fraud".to_string()).unwrap().is_fraud);
    assert!(take_record(&numbers[..13].to_vec(), &"fraud".to_string()).is_none());
}

#[test]
fn a_builder_sorts_references_into_clusters() {
    let mut b = IndexBuilder::new(2);
    b.add(&Reference { vec: row(0.5), is_fraud: true }, &vec![9, 3]);
    b.add(&Reference { vec: row(-1.0), is_fraud: false }, &vec![3, 3]);
    b.add(&Reference { vec: row(0.25), is_fraud: false }, &vec![4, 3]);
    assert_eq!(b.total, 3);
    assert_eq!(b.clusters[0], vec![Entry { vec: [-127; DIMS], is_fraud: false }]);
    assert_eq!(
        b.clusters[1],
        vec![
            Entry { vec: [63; DIMS], is_fraud: true },
            Entry { vec: [31; DIMS], is_fraud: false },
        ]
    );
    let bytes = b.index_file(&vec![row(0.0), row(1.0)], 9);
    let index = match IvfIndex::load(&bytes) {
        Ok(i) => i,
        Err(e) => panic!("{}", e.message(" ")),
    };
    assert_eq!(index.offsets, vec![0, 1, 3]);
    assert_eq!(index.labels, vec![false, true, false]);
    assert_eq!(index.default_probes, 9);
}
