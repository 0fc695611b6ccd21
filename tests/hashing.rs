use sha1::Digest;
use torseed::hash_v1::V1Hasher;
use torseed::hash_v2::{build_piece_layers, hash_pair, merkle_root, V2Hasher, LEAF_SIZE};

fn sha1(data: &[u8]) -> [u8; 20] {
    sha1::Sha1::digest(data).into()
}

fn sha256(data: &[u8]) -> [u8; 32] {
    sha2::Sha256::digest(data).into()
}

fn pattern(len: usize) -> Vec<u8> {
    (0..len).map(|i| (i * 31 % 251) as u8).collect()
}

#[test]
fn v1_empty_input_has_no_pieces() {
    let h = V1Hasher::new(16384);
    assert!(h.finalize().is_empty());
}

#[test]
fn v1_piece_count_is_ceiling() {
    for (len, plen, count) in [(1usize, 300usize, 1usize), (300, 300, 1), (301, 300, 2), (1000, 300, 4), (900, 300, 3)] {
        let mut h = V1Hasher::new(plen);
        h.update(&pattern(len));
        let pieces = h.finalize();
        assert_eq!(pieces.len() % 20, 0);
        assert_eq!(pieces.len() / 20, count);
    }
}

#[test]
fn v1_pieces_are_sha1_of_segments() {
    let data = pattern(1000);
    let mut h = V1Hasher::new(300);
    h.update(&data);
    let pieces = h.finalize();
    let mut expected = Vec::new();
    for chunk in data.chunks(300) {
        expected.extend_from_slice(&sha1(chunk));
    }
    assert_eq!(pieces, expected);
}

#[test]
fn v1_chunking_does_not_matter() {
    let data = pattern(5000);
    let mut a = V1Hasher::new(1024);
    a.update(&data);
    let mut b = V1Hasher::new(1024);
    for chunk in data.chunks(7) {
        b.update(chunk);
    }
    let mut c = V1Hasher::new(1024);
    c.update(&data[..1024]);
    c.update(&[]);
    c.update(&data[1024..]);
    let ra = a.finalize();
    assert_eq!(ra, b.finalize());
    assert_eq!(ra, c.finalize());
}

#[test]
fn merkle_root_of_one_leaf_is_the_leaf() {
    let leaf = sha256(b"leaf");
    assert_eq!(merkle_root(&[leaf]), leaf);
}

#[test]
fn merkle_root_of_no_leaves_is_sha256_of_empty() {
    assert_eq!(
        hex::encode(merkle_root(&[])),
        "e3b0c44298fc1c149afbf4c8996fb92427ae41e4649b934ca495991b7852b855"
    );
}

#[test]
fn merkle_root_is_deterministic() {
    let leaves: Vec<[u8; 32]> = (0u8..5).map(|i| sha256(&[i])).collect();
    assert_eq!(merkle_root(&leaves), merkle_root(&leaves));
}

#[test]
fn merkle_root_duplicates_odd_last_node() {
    let a = sha256(b"a");
    let b = sha256(b"b");
    let c = sha256(b"c");
    let ab = hash_pair(&a, &b);
    let cc = hash_pair(&c, &c);
    assert_eq!(merkle_root(&[a, b, c]), hash_pair(&ab, &cc));
    assert_eq!(merkle_root(&[a, b]), ab);
}

#[test]
fn hash_pair_is_sha256_of_concatenation() {
    let l = [1u8; 32];
    let r = [2u8; 32];
    let mut both = l.to_vec();
    both.extend_from_slice(&r);
    assert_eq!(hash_pair(&l, &r), sha256(&both));
    assert_ne!(hash_pair(&l, &r), hash_pair(&r, &l));
}

#[test]
fn full_leaves_give_exact_leaf_count() {
    for n in [1usize, 2, 3, 5] {
        let mut h = V2Hasher::new();
        h.update(&vec![7u8; n * LEAF_SIZE]);
        assert_eq!(h.leaf_count(), n);
        assert_eq!(h.total_bytes(), (n * LEAF_SIZE) as u64);
    }
}

#[test]
fn partial_leaf_is_hashed_unpadded() {
    let data = pattern(LEAF_SIZE + 100);
    let mut h = V2Hasher::new();
    h.update(&data);
    assert_eq!(h.leaf_count(), 1);
    let s = h.finalize(LEAF_SIZE);
    let leaves = [sha256(&data[..LEAF_SIZE]), sha256(&data[LEAF_SIZE..])];
    assert_eq!(s.pieces_root, hash_pair(&leaves[0], &leaves[1]));
    let mut layers = leaves[0].to_vec();
    layers.extend_from_slice(&leaves[1]);
    assert_eq!(s.piece_layers, layers);
}

#[test]
fn empty_stream_has_single_synthetic_leaf() {
    let h = V2Hasher::new();
    let s = h.finalize(262144);
    assert!(s.piece_layers.is_empty());
    assert_eq!(s.pieces_root, sha256(b""));
}

#[test]
fn piece_layers_length_is_one_root_per_piece() {
    for (len, plen) in [(1usize, 32768usize), (32768, 32768), (32769, 32768), (100000, 16384), (200000, 65536)] {
        let mut h = V2Hasher::new();
        h.update(&pattern(len));
        let s = h.finalize(plen);
        assert_eq!(s.piece_layers.len(), 32 * ((len + plen - 1) / plen));
    }
}

#[test]
fn piece_layers_truncate_when_leaves_run_out() {
    let leaves: Vec<[u8; 32]> = (0u8..3).map(|i| sha256(&[i])).collect();
    let layers = build_piece_layers(&leaves, 2 * LEAF_SIZE, 5);
    let mut expected = hash_pair(&leaves[0], &leaves[1]).to_vec();
    expected.extend_from_slice(&leaves[2]);
    assert_eq!(layers, expected);
    assert!(build_piece_layers(&leaves, 2 * LEAF_SIZE, 0).is_empty());
}

#[test]
fn one_mib_of_zeros_golden_digests() {
    let data = vec![0u8; 1 << 20];
    let mut v1 = V1Hasher::new(262144);
    let mut v2 = V2Hasher::new();
    for chunk in data.chunks(10000) {
        v1.update(chunk);
        v2.update(chunk);
    }
    let pieces = v1.finalize();
    assert_eq!(pieces.len(), 80);
    assert_eq!(hex::encode(&pieces[..20]), "2e000fa7e85759c7f4c254d4d9c33ef481e459a7");
    let s = v2.finalize(262144);
    assert_eq!(
        hex::encode(s.pieces_root),
        "515ea9181744b817744ded9d2e8e9dc6a8450c0b0c52e24b5077f302ffbd9008"
    );
    assert_eq!(s.piece_layers.len(), 128);
    assert_eq!(
        hex::encode(&s.piece_layers[..32]),
        "0ee38dbbe040ef1d6f2435117c70f2579e768215c91a640e7d855a647084869c"
    );
}

#[test]
fn piece_layers_short_when_piece_length_is_not_whole_leaves() {
    // 16385-byte pieces take two leaves each, so three pieces of data
    // (four leaves) fill only two groups.
    let mut h = V2Hasher::new();
    h.update(&pattern(3 * 16385));
    let s = h.finalize(16385);
    assert_eq!(s.piece_layers.len(), 64);
}
