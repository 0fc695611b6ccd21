use torseed::trackers::add_unique;
use torseed::util::{choose_piece_length, sanitize_filename};

#[test]
fn piece_length_grows_with_size() {
    const MB: u64 = 1024 * 1024;
    const GB: u64 = 1024 * MB;
    assert_eq!(choose_piece_length(0), 262144);
    assert_eq!(choose_piece_length(128 * MB), 262144);
    assert_eq!(choose_piece_length(128 * MB + 1), 524288);
    assert_eq!(choose_piece_length(GB), 524288);
    assert_eq!(choose_piece_length(4 * GB), 1048576);
    assert_eq!(choose_piece_length(16 * GB), 2097152);
    assert_eq!(choose_piece_length(64 * GB), 4194304);
    assert_eq!(choose_piece_length(64 * GB + 1), 8388608);
    assert_eq!(choose_piece_length(u64::MAX), 8388608);
}

#[test]
fn sanitize_keeps_safe_characters() {
    assert_eq!(sanitize_filename("ubuntu-24.04_amd64.iso"), "ubuntu-24.04_amd64.iso");
}

#[test]
fn sanitize_replaces_unsafe_characters() {
    assert_eq!(sanitize_filename("  my file (1).txt \n"), "my_file__1_.txt");
    assert_eq!(sanitize_filename("é.txt"), "_.txt");
    assert_eq!(sanitize_filename("a/b\\c"), "a_b_c");
}

#[test]
fn sanitize_drops_leading_dots() {
    assert_eq!(sanitize_filename(".hidden"), "hidden");
    assert_eq!(sanitize_filename("..a.b"), "a.b");
}

#[test]
fn sanitize_falls_back_to_default_name() {
    assert_eq!(sanitize_filename(""), "download");
    assert_eq!(sanitize_filename("   "), "download");
    assert_eq!(sanitize_filename("..."), "download");
}

fn strings(v: &[&str]) -> Vec<String> {
    v.iter().map(|s| s.to_string()).collect()
}

#[test]
fn add_unique_keeps_order_and_drops_duplicates() {
    let mut list = strings(&["a", "b"]);
    add_unique(&mut list, &strings(&["b", "c", "a", "d", "c"]), 1000);
    assert_eq!(list, strings(&["a", "b", "c", "d"]));
}

#[test]
fn add_unique_stops_at_cap() {
    let mut list = Vec::new();
    add_unique(&mut list, &strings(&["x", "y", "x", "z", "w"]), 3);
    assert_eq!(list, strings(&["x", "y", "z"]));
    add_unique(&mut list, &strings(&["v"]), 3);
    assert_eq!(list.len(), 3);
}

#[test]
fn torrent_file_name_appends_extension() {
    assert_eq!(torseed::util::torrent_file_name("my movie.mkv"), "my_movie.mkv.torrent");
    assert_eq!(torseed::util::torrent_file_name(""), "download.torrent");
}
