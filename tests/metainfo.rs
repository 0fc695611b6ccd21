use sha1::Digest;
use bendy::decoding::FromBencode;
use bendy::encoding::ToBencode;
use bendy::value::Value;
use torseed::hash_v1::V1Hasher;
use torseed::hash_v2::{V2Hasher, V2Summary};
use torseed::metainfo::{build, i64_from_u64, BuildError, BuildInput};

fn zeros_input(v2: bool) -> BuildInput {
    let data = vec![0u8; 1 << 20];
    let mut h1 = V1Hasher::new(262144);
    let mut h2 = V2Hasher::new();
    h1.update(&data);
    h2.update(&data);
    BuildInput {
        name: "zeros.bin".to_string(),
        length: data.len() as u64,
        piece_length: 262144,
        pieces: h1.finalize(),
        trackers: vec!["udp://t.example:80/announce".to_string()],
        webseeds: vec!["https://example.com/zeros.bin".to_string()],
        creation_date: 1700000000,
        created_by: "torseed".to_string(),
        v2: if v2 { Some(h2.finalize(262144)) } else { None },
    }
}

fn small_input() -> BuildInput {
    BuildInput {
        name: "a".to_string(),
        length: 3,
        piece_length: 16384,
        pieces: vec![9u8; 20],
        trackers: vec!["t1".to_string(), "t2".to_string()],
        webseeds: vec![],
        creation_date: -5,
        created_by: "me".to_string(),
        v2: None,
    }
}

fn contains(hay: &[u8], needle: &[u8]) -> bool {
    hay.windows(needle.len()).any(|w| w == needle)
}

#[test]
fn golden_infohashes_for_one_mib_of_zeros() {
    let m = build(&zeros_input(true)).unwrap();
    assert_eq!(hex::encode(m.infohash_v1.unwrap()), "e438579413d3ae5162b86a71301d97c85c6db088");
    assert_eq!(
        hex::encode(m.infohash_v2.unwrap()),
        "649a3a19744b8d5b4280db0428bb442da58f50c44aabfe1597adc95f744567e2"
    );
    assert_eq!(m.torrent.len(), 640);
    let digest: [u8; 20] = sha1::Sha1::digest(&m.torrent).into();
    assert_eq!(hex::encode(digest), "55cc02052a315f85d03075e2ec2eb1f370666438");
}

#[test]
fn small_document_is_exact() {
    let m = build(&small_input()).unwrap();
    let mut expected = b"d8:announce2:t113:announce-listll2:t12:t2ee10:created by2:me13:creation datei-5e4:infod6:lengthi3e4:name1:a12:piece lengthi16384e6:pieces20:".to_vec();
    expected.extend_from_slice(&[9u8; 20]);
    expected.extend_from_slice(b"e8:url-listlee");
    assert_eq!(m.torrent, expected);
}

#[test]
fn empty_tracker_list_is_rejected() {
    let mut input = small_input();
    input.trackers.clear();
    assert_eq!(build(&input).err(), Some(BuildError::NoTrackers));
}

#[test]
fn oversized_length_is_rejected() {
    let mut input = small_input();
    input.length = u64::MAX;
    assert_eq!(build(&input).err(), Some(BuildError::LengthOverflow));
    input.length = i64::MAX as u64;
    assert!(build(&input).is_ok());
}

#[test]
fn i64_conversion_is_checked() {
    assert_eq!(i64_from_u64(5), Some(5));
    assert_eq!(i64_from_u64(i64::MAX as u64), Some(i64::MAX));
    assert_eq!(i64_from_u64(i64::MAX as u64 + 1), None);
}

#[test]
fn round_trip_reencodes_identically() {
    for v2 in [false, true] {
        let m = build(&zeros_input(v2)).unwrap();
        let decoded = Value::from_bencode(&m.torrent).unwrap();
        assert_eq!(decoded.to_bencode().unwrap(), m.torrent);
    }
}

#[test]
fn dictionary_keys_are_sorted() {
    let m = build(&zeros_input(true)).unwrap();
    let text = m.torrent.clone();
    let order: [&[u8]; 6] = [b"8:announce", b"13:announce-list", b"10:created by", b"13:creation date", b"4:info", b"8:url-list"];
    let mut last = 0;
    for k in order {
        let pos = text.windows(k.len()).position(|w| w == k).unwrap();
        assert!(pos > last);
        last = pos;
    }
    let info: [&[u8]; 7] = [b"9:file tree", b"6:lengthi", b"12:meta version", b"4:name", b"12:piece layers", b"12:piece length", b"6:pieces"];
    let mut last = 0;
    for k in info {
        let pos = text.windows(k.len()).position(|w| w == k).unwrap();
        assert!(pos > last);
        last = pos;
    }
}

#[test]
fn creation_fields_do_not_change_infohashes() {
    let a = zeros_input(true);
    let mut b = zeros_input(true);
    b.creation_date = 42;
    b.created_by = "someone else".to_string();
    let ma = build(&a).unwrap();
    let mb = build(&b).unwrap();
    assert_eq!(ma.infohash_v1, mb.infohash_v1);
    assert_eq!(ma.infohash_v2, mb.infohash_v2);
    assert_ne!(ma.torrent, mb.torrent);
}

#[test]
fn v1_only_has_no_v2_fields() {
    let m = build(&zeros_input(false)).unwrap();
    assert!(m.infohash_v2.is_none());
    assert!(m.infohash_v1.is_some());
    assert!(!contains(&m.torrent, b"12:meta version"));
    assert!(!contains(&m.torrent, b"9:file tree"));
    assert!(!contains(&m.torrent, b"12:piece layers"));
    let full = build(&zeros_input(true)).unwrap();
    assert_eq!(m.infohash_v1, full.infohash_v1);
}

#[test]
fn v2_summary_fields_are_embedded() {
    let mut input = small_input();
    input.v2 = Some(V2Summary { pieces_root: [1u8; 32], piece_layers: vec![] });
    let m = build(&input).unwrap();
    assert!(contains(&m.torrent, b"12:meta versioni2e"));
    assert!(contains(&m.torrent, b"9:file treed1:ad0:d6:lengthi3e11:pieces root32:"));
    assert!(m.infohash_v2.is_some());
}

#[test]
fn empty_source_still_has_v1_infohash() {
    let mut input = small_input();
    input.length = 0;
    input.pieces = vec![];
    let m = build(&input).unwrap();
    assert!(m.infohash_v1.is_some());
    assert!(contains(&m.torrent, b"6:pieces0:"));
}
