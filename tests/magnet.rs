use torseed::magnet::build_magnets;

#[test]
fn magnets_for_both_hashes() {
    let trackers = vec!["udp://t.example:80/announce".to_string()];
    let webseeds = vec!["https://example.com/a b".to_string()];
    let mut h1 = [0u8; 20];
    h1[0] = 0xab;
    h1[19] = 0x01;
    let h2 = [0xffu8; 32];
    let m = build_magnets("my file~.iso", &trackers, &webseeds, Some(h1), Some(h2));
    assert_eq!(m.len(), 2);
    assert_eq!(
        m[0],
        "magnet:?xt=urn:btih:ab00000000000000000000000000000000000001&dn=my%20file~.iso&tr=udp%3A%2F%2Ft.example%3A80%2Fannounce&ws=https%3A%2F%2Fexample.com%2Fa%20b"
    );
    assert_eq!(
        m[1],
        format!(
            "magnet:?xt=urn:btmh:1220{}&dn=my%20file~.iso&tr=udp%3A%2F%2Ft.example%3A80%2Fannounce&ws=https%3A%2F%2Fexample.com%2Fa%20b",
            "ff".repeat(32)
        )
    );
}

#[test]
fn magnets_only_for_present_hashes() {
    let none = build_magnets("x", &[], &[], None, None);
    assert!(none.is_empty());
    let only_v2 = build_magnets("x", &[], &[], None, Some([0u8; 32]));
    assert_eq!(only_v2.len(), 1);
    assert!(only_v2[0].starts_with("magnet:?xt=urn:btmh:1220"));
    assert!(only_v2[0].ends_with("&dn=x"));
}

#[test]
fn magnet_escapes_non_ascii_bytes() {
    let m = build_magnets("é", &[], &[], Some([0u8; 20]), None);
    assert!(m[0].ends_with("&dn=%C3%A9"));
}
