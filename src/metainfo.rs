//! Assembly of the metainfo document: the v1, v2 and combined info
//! dictionaries, the root dictionary, and the infohashes.
use crate::bencode::{
    bytes_lt, canonical, keys_ascending, encode, encode_entries, encode_items, lemma_dict_begin, lemma_dict_end, lemma_dict_step,
    lemma_items_push, put_bytes, put_int, put_key, BValue,
};
use crate::bytes::ascii_bytes;
use crate::decode::{decode, lemma_round_trip};
use crate::digest::{sha1_digest, sha1_of, sha256_digest, sha256_of};
use crate::hash_v2::V2Summary;
use vstd::prelude::*;
use vstd::utf8::encode_utf8;

verus! {

/// Everything the metainfo is made from.
pub struct BuildInput {
    pub name: String,
    pub length: u64,
    pub piece_length: u32,
    pub pieces: Vec<u8>,
    pub trackers: Vec<String>,
    pub webseeds: Vec<String>,
    pub creation_date: i64,
    pub created_by: String,
    pub v2: Option<V2Summary>,
}

/// The encoded document and its infohashes.
pub struct Metainfo {
    pub torrent: Vec<u8>,
    pub infohash_v1: Option<[u8; 20]>,
    pub infohash_v2: Option<[u8; 32]>,
}

/// Why a metainfo could not be built.
#[derive(Debug, Clone, Copy, PartialEq, Eq)]
pub enum BuildError {
    /// The tracker list is empty.
    NoTrackers,
    /// The total length does not fit a signed 64-bit integer.
    LengthOverflow,
}

/// A dictionary key written as text.
pub open spec fn key(k: &str) -> Seq<u8> {
    ascii_bytes(k@)
}

/// The UTF-8 bytes of a text.
pub open spec fn text(s: Seq<char>) -> Seq<u8> {
    encode_utf8(s)
}

/// A list of texts as bencode byte strings.
pub open spec fn text_list(items: Seq<String>) -> Seq<BValue> {
    Seq::new(items.len(), |i: int| BValue::Str(text(items[i]@)))
}

/// `{name: {"": {length, pieces root}}}`.
pub open spec fn file_tree(input: BuildInput, v2: V2Summary) -> BValue {
    BValue::Dict(
        seq![(
            text(input.name@),
            BValue::Dict(
                seq![(
                    Seq::empty(),
                    BValue::Dict(
                        seq![
                            (key("length"), BValue::Int(input.length as int)),
                            (key("pieces root"), BValue::Str(v2.pieces_root@)),
                        ],
                    ),
                )],
            ),
        )],
    )
}

/// `{pieces root: concatenated per-piece roots}`.
pub open spec fn layers_value(v2: V2Summary) -> BValue {
    BValue::Dict(seq![(v2.pieces_root@, BValue::Str(v2.piece_layers@))])
}

/// The entries of an info dictionary, in key order: the v1 fields when
/// `with_v1` holds, the v2 fields when `v2` is given, and the fields the
/// two share in either case.
pub open spec fn info_entries(input: BuildInput, with_v1: bool, v2: Option<V2Summary>) -> Seq<
    (Seq<u8>, BValue),
> {
    let s0 = Seq::<(Seq<u8>, BValue)>::empty();
    let s1 = match v2 {
        Some(v) => s0.push((key("file tree"), file_tree(input, v))),
        None => s0,
    };
    let s2 = if with_v1 {
        s1.push((key("length"), BValue::Int(input.length as int)))
    } else {
        s1
    };
    let s3 = match v2 {
        Some(v) => s2.push((key("meta version"), BValue::Int(2))),
        None => s2,
    };
    let s4 = s3.push((key("name"), BValue::Str(text(input.name@))));
    let s5 = match v2 {
        Some(v) => s4.push((key("piece layers"), layers_value(v))),
        None => s4,
    };
    let s6 = s5.push((key("piece length"), BValue::Int(input.piece_length as int)));
    if with_v1 {
        s6.push((key("pieces"), BValue::Str(input.pieces@)))
    } else {
        s6
    }
}

/// The v1 info dictionary: `{length, name, piece length, pieces}`.
pub open spec fn info_v1(input: BuildInput) -> BValue {
    BValue::Dict(info_entries(input, true, None))
}

/// The v2 info dictionary: `{file tree, meta version, name, piece layers,
/// piece length}`.
pub open spec fn info_v2(input: BuildInput, v2: V2Summary) -> BValue {
    BValue::Dict(info_entries(input, false, Some(v2)))
}

/// The info dictionary of the document: the v1 fields, and the v2 fields
/// when a v2 summary is given.
pub open spec fn info_combined(input: BuildInput) -> BValue {
    BValue::Dict(info_entries(input, true, input.v2))
}

/// The root dictionary of the document.
pub open spec fn root_value(input: BuildInput) -> BValue {
    BValue::Dict(
        seq![
            (key("announce"), BValue::Str(text(input.trackers@[0]@))),
            (key("announce-list"), BValue::List(seq![BValue::List(text_list(input.trackers@))])),
            (key("created by"), BValue::Str(text(input.created_by@))),
            (key("creation date"), BValue::Int(input.creation_date as int)),
            (key("info"), info_combined(input)),
            (key("url-list"), BValue::List(text_list(input.webseeds@))),
        ],
    )
}

/// The v1 infohash: SHA-1 of the encoded v1 info dictionary.
pub open spec fn infohash_v1_of(input: BuildInput) -> [u8; 20] {
    sha1_of(encode(info_v1(input)))
}

/// The v2 infohash, present when a v2 summary is given: SHA-256 of the
/// encoded v2 info dictionary.
pub open spec fn infohash_v2_of(input: BuildInput) -> Option<[u8; 32]> {
    match input.v2 {
        Some(v2) => Some(sha256_of(encode(info_v2(input, v2)))),
        None => None,
    }
}

/// A length as a signed 64-bit integer, when it fits.
pub fn i64_from_u64(value: u64) -> (r: Option<i64>)
    ensures
        r == if value <= i64::MAX as u64 {
            Some(value as i64)
        } else {
            None::<i64>
        },
{
    if value <= i64::MAX as u64 {
        Some(value as i64)
    } else {
        None
    }
}

/// Appends a text as a byte string.
fn put_text(out: &mut Vec<u8>, s: &str)
    ensures
        final(out)@ == old(out)@ + encode(BValue::Str(text(s@))),
{
    put_bytes(out, s.as_bytes());
}

/// Appends a list of texts.
fn put_text_list(out: &mut Vec<u8>, items: &Vec<String>)
    ensures
        final(out)@ == old(out)@ + encode(BValue::List(text_list(items@))),
{
    out.push('l' as u8);
    let ghost start = out@;
    let ghost all = text_list(items@);
    let mut i: usize = 0;
    assert(all.take(0) =~= Seq::<BValue>::empty());
    while i < items.len()
        invariant
            i <= items@.len(),
            all == text_list(items@),
            out@ == start + encode_items(all.take(i as int)),
        decreases items@.len() - i,
    {
        put_text(out, items[i].as_str());
        proof {
            lemma_items_push(all.take(i as int), all[i as int]);
            assert(all.take(i + 1) =~= all.take(i as int).push(all[i as int]));
        }
        i += 1;
        assert(out@ =~= start + encode_items(all.take(i as int)));
    }
    assert(all.take(i as int) =~= all);
    out.push('e' as u8);
    assert(final(out)@ =~= old(out)@ + encode(BValue::List(text_list(items@))));
}

/// Appends the file tree of a single-file torrent.
fn put_file_tree(out: &mut Vec<u8>, input: &BuildInput, length: i64, v2: &V2Summary)
    requires
        length == input.length,
    ensures
        final(out)@ == old(out)@ + encode(file_tree(*input, *v2)),
{
    let ghost e0 = Seq::<(Seq<u8>, BValue)>::empty();
    // innermost: {length, pieces root}
    let ghost leaf = e0.push((key("length"), BValue::Int(input.length as int))).push(
        (key("pieces root"), BValue::Str(v2.pieces_root@)),
    );
    let ghost entry = e0.push((Seq::<u8>::empty(), BValue::Dict(leaf)));
    let ghost tree = e0.push((text(input.name@), BValue::Dict(entry)));

    let ghost b0 = out@;
    out.push('d' as u8);
    let ghost s0 = out@;
    proof {
        lemma_dict_begin(s0);
    }
    put_text(out, input.name.as_str());
    let ghost b1 = out@;
    out.push('d' as u8);
    let ghost s1 = out@;
    proof {
        lemma_dict_begin(s1);
    }
    let empty: Vec<u8> = Vec::new();
    put_bytes(out, empty.as_slice());
    let ghost b2 = out@;
    out.push('d' as u8);
    let ghost s2 = out@;
    proof {
        lemma_dict_begin(s2);
    }
    put_key(out, "length");
    put_int(out, length);
    proof {
        lemma_dict_step(s2, e0, key("length"), BValue::Int(input.length as int), s2, out@);
    }
    let ghost m2 = out@;
    put_key(out, "pieces root");
    put_bytes(out, v2.pieces_root.as_slice());
    proof {
        lemma_dict_step(
            s2,
            e0.push((key("length"), BValue::Int(input.length as int))),
            key("pieces root"),
            BValue::Str(v2.pieces_root@),
            m2,
            out@,
        );
    }
    let ghost body2 = out@;
    out.push('e' as u8);
    proof {
        lemma_dict_end(b2, leaf, body2, out@);
        lemma_dict_step(s1, e0, Seq::<u8>::empty(), BValue::Dict(leaf), s1, out@);
    }
    let ghost body1 = out@;
    out.push('e' as u8);
    proof {
        lemma_dict_end(b1, entry, body1, out@);
        lemma_dict_step(s0, e0, text(input.name@), BValue::Dict(entry), s0, out@);
    }
    let ghost body0 = out@;
    out.push('e' as u8);
    proof {
        lemma_dict_end(b0, tree, body0, out@);
        if let BValue::Dict(t) = file_tree(*input, *v2) {
            if let BValue::Dict(en) = t[0].1 {
                if let BValue::Dict(lf) = en[0].1 {
                    assert(leaf =~= lf);
                }
                assert(entry =~= en);
            }
            assert(tree =~= t);
        }
    }
}

/// Appends `{pieces root: piece layers}`.
fn put_layers(out: &mut Vec<u8>, v2: &V2Summary)
    ensures
        final(out)@ == old(out)@ + encode(layers_value(*v2)),
{
    let ghost e0 = Seq::<(Seq<u8>, BValue)>::empty();
    out.push('d' as u8);
    let ghost s0 = out@;
    proof {
        lemma_dict_begin(s0);
    }
    put_bytes(out, v2.pieces_root.as_slice());
    put_bytes(out, v2.piece_layers.as_slice());
    proof {
        lemma_dict_step(s0, e0, v2.pieces_root@, BValue::Str(v2.piece_layers@), s0, out@);
    }
    let ghost body = out@;
    out.push('e' as u8);
    proof {
        lemma_dict_end(old(out)@, e0.push((v2.pieces_root@, BValue::Str(v2.piece_layers@))), body, out@);
    }
}

/// Appends an info dictionary: the v1 fields when `with_v1` holds and the
/// v2 fields when `v2` is given, merged in key order.
fn put_info(
    out: &mut Vec<u8>,
    input: &BuildInput,
    length: i64,
    with_v1: bool,
    v2: Option<&V2Summary>,
)
    requires
        length == input.length,
    ensures
        final(out)@ == old(out)@ + encode(
            BValue::Dict(
                info_entries(
                    *input,
                    with_v1,
                    match v2 {
                        Some(v) => Some(*v),
                        None => None,
                    },
                ),
            ),
        ),
{
    let ghost v2s: Option<V2Summary> = match v2 {
        Some(v) => Some(*v),
        None => None,
    };
    out.push('d' as u8);
    let ghost start = out@;
    let ghost mut es = Seq::<(Seq<u8>, BValue)>::empty();
    proof {
        lemma_dict_begin(start);
    }
    if let Some(v) = v2 {
        let ghost mid = out@;
        put_key(out, "file tree");
        put_file_tree(out, input, length, v);
        proof {
            lemma_dict_step(start, es, key("file tree"), file_tree(*input, *v), mid, out@);
            es = es.push((key("file tree"), file_tree(*input, *v)));
        }
    }
    if with_v1 {
        let ghost mid = out@;
        put_key(out, "length");
        put_int(out, length);
        proof {
            lemma_dict_step(start, es, key("length"), BValue::Int(length as int), mid, out@);
            es = es.push((key("length"), BValue::Int(length as int)));
        }
    }
    if let Some(v) = v2 {
        let ghost mid = out@;
        put_key(out, "meta version");
        put_int(out, 2);
        proof {
            lemma_dict_step(start, es, key("meta version"), BValue::Int(2), mid, out@);
            es = es.push((key("meta version"), BValue::Int(2)));
        }
    }
    let ghost mid = out@;
    put_key(out, "name");
    put_text(out, input.name.as_str());
    proof {
        lemma_dict_step(start, es, key("name"), BValue::Str(text(input.name@)), mid, out@);
        es = es.push((key("name"), BValue::Str(text(input.name@))));
    }
    if let Some(v) = v2 {
        let ghost mid = out@;
        put_key(out, "piece layers");
        put_layers(out, v);
        proof {
            lemma_dict_step(start, es, key("piece layers"), layers_value(*v), mid, out@);
            es = es.push((key("piece layers"), layers_value(*v)));
        }
    }
    let ghost mid = out@;
    put_key(out, "piece length");
    put_int(out, input.piece_length as i64);
    proof {
        lemma_dict_step(
            start,
            es,
            key("piece length"),
            BValue::Int(input.piece_length as int),
            mid,
            out@,
        );
        es = es.push((key("piece length"), BValue::Int(input.piece_length as int)));
    }
    if with_v1 {
        let ghost mid = out@;
        put_key(out, "pieces");
        put_bytes(out, input.pieces.as_slice());
        proof {
            lemma_dict_step(start, es, key("pieces"), BValue::Str(input.pieces@), mid, out@);
            es = es.push((key("pieces"), BValue::Str(input.pieces@)));
        }
    }
    assert(es == info_entries(*input, with_v1, v2s));
    let ghost body = out@;
    out.push('e' as u8);
    proof {
        lemma_dict_end(old(out)@, es, body, out@);
    }
}

/// Encodes the root dictionary.
fn encode_root(input: &BuildInput, length: i64) -> (r: Vec<u8>)
    requires
        length == input.length,
        input.trackers@.len() > 0,
    ensures
        r@ == encode(root_value(*input)),
{
    let mut out: Vec<u8> = Vec::new();
    let ghost b0 = out@;
    out.push('d' as u8);
    let ghost start = out@;
    let ghost mut es = Seq::<(Seq<u8>, BValue)>::empty();
    proof {
        lemma_dict_begin(start);
    }

    let ghost mid = out@;
    put_key(&mut out, "announce");
    put_text(&mut out, input.trackers[0].as_str());
    proof {
        lemma_dict_step(
            start,
            es,
            key("announce"),
            BValue::Str(text(input.trackers@[0]@)),
            mid,
            out@,
        );
        es = es.push((key("announce"), BValue::Str(text(input.trackers@[0]@))));
    }

    let ghost mid = out@;
    put_key(&mut out, "announce-list");
    let ghost tier = BValue::List(text_list(input.trackers@));
    let ghost lb = out@;
    out.push('l' as u8);
    put_text_list(&mut out, &input.trackers);
    out.push('e' as u8);
    proof {
        lemma_items_push(Seq::empty(), tier);
        assert(out@ =~= lb + encode(BValue::List(seq![tier])));
        lemma_dict_step(start, es, key("announce-list"), BValue::List(seq![tier]), mid, out@);
        es = es.push((key("announce-list"), BValue::List(seq![tier])));
    }

    let ghost mid = out@;
    put_key(&mut out, "created by");
    put_text(&mut out, input.created_by.as_str());
    proof {
        lemma_dict_step(
            start,
            es,
            key("created by"),
            BValue::Str(text(input.created_by@)),
            mid,
            out@,
        );
        es = es.push((key("created by"), BValue::Str(text(input.created_by@))));
    }

    let ghost mid = out@;
    put_key(&mut out, "creation date");
    put_int(&mut out, input.creation_date);
    proof {
        lemma_dict_step(
            start,
            es,
            key("creation date"),
            BValue::Int(input.creation_date as int),
            mid,
            out@,
        );
        es = es.push((key("creation date"), BValue::Int(input.creation_date as int)));
    }

    let ghost mid = out@;
    put_key(&mut out, "info");
    let v2 = match &input.v2 {
        Some(v) => Some(v),
        None => None,
    };
    put_info(&mut out, input, length, true, v2);
    proof {
        lemma_dict_step(start, es, key("info"), info_combined(*input), mid, out@);
        es = es.push((key("info"), info_combined(*input)));
    }

    let ghost mid = out@;
    put_key(&mut out, "url-list");
    put_text_list(&mut out, &input.webseeds);
    proof {
        lemma_dict_step(
            start,
            es,
            key("url-list"),
            BValue::List(text_list(input.webseeds@)),
            mid,
            out@,
        );
        es = es.push((key("url-list"), BValue::List(text_list(input.webseeds@))));
    }
    let ghost body = out@;
    out.push('e' as u8);
    proof {
        lemma_dict_end(b0, es, body, out@);
        if let BValue::Dict(entries) = root_value(*input) {
            assert(es =~= entries);
        }
    }
    out
}

/// Builds the metainfo document and its infohashes.
///
/// Fails when the tracker list is empty, then when the length does not fit
/// a signed 64-bit integer; otherwise the document is the canonical
/// encoding of the root dictionary, the v1 infohash is always present and
/// the v2 infohash is present exactly when a v2 summary is given.
pub fn build(input: &BuildInput) -> (r: Result<Metainfo, BuildError>)
    ensures
        input.trackers@.len() == 0 ==> r matches Err(BuildError::NoTrackers),
        input.trackers@.len() > 0 && input.length > i64::MAX ==> r matches Err(
            BuildError::LengthOverflow,
        ),
        r is Ok <==> input.trackers@.len() > 0 && input.length <= i64::MAX,
        r matches Ok(m) ==> {
            &&& m.torrent@ == encode(root_value(*input))
            &&& m.infohash_v1 == Some(infohash_v1_of(*input))
            &&& m.infohash_v2 == infohash_v2_of(*input)
        },
{
    if input.trackers.len() == 0 {
        return Err(BuildError::NoTrackers);
    }
    let length = match i64_from_u64(input.length) {
        Some(l) => l,
        None => return Err(BuildError::LengthOverflow),
    };
    let mut v1_bytes: Vec<u8> = Vec::new();
    put_info(&mut v1_bytes, input, length, true, None);
    assert(v1_bytes@ =~= encode(info_v1(*input)));
    let infohash_v1 = Some(sha1_digest(v1_bytes.as_slice()));
    let infohash_v2 = match &input.v2 {
        Some(v) => {
            let mut v2_bytes: Vec<u8> = Vec::new();
            put_info(&mut v2_bytes, input, length, false, Some(v));
            assert(v2_bytes@ =~= encode(info_v2(*input, *v)));
            Some(sha256_digest(v2_bytes.as_slice()))
        },
        None => None,
    };
    let torrent = encode_root(input, length);
    Ok(Metainfo { torrent, infohash_v1, infohash_v2 })
}

/// `a` sorts before `b`, first differing at `k`.
proof fn lemma_lt_at(a: Seq<u8>, b: Seq<u8>, k: int)
    requires
        0 <= k < a.len(),
        k < b.len(),
        a.take(k) == b.take(k),
        a[k] < b[k],
    ensures
        bytes_lt(a, b),
{
}

/// `a` sorts before `b`, of which it is a proper prefix.
proof fn lemma_lt_prefix(a: Seq<u8>, b: Seq<u8>)
    requires
        a.len() < b.len(),
        b.take(a.len() as int) == a,
    ensures
        bytes_lt(a, b),
{
    assert(a.take(a.len() as int) =~= a);
}

/// The byte order of the dictionary keys this document uses.
proof fn lemma_key_order()
    ensures
        bytes_lt(key("announce"), key("announce-list")),
        bytes_lt(key("announce-list"), key("created by")),
        bytes_lt(key("created by"), key("creation date")),
        bytes_lt(key("creation date"), key("info")),
        bytes_lt(key("info"), key("url-list")),
        bytes_lt(key("file tree"), key("length")),
        bytes_lt(key("file tree"), key("meta version")),
        bytes_lt(key("length"), key("meta version")),
        bytes_lt(key("length"), key("name")),
        bytes_lt(key("meta version"), key("name")),
        bytes_lt(key("name"), key("piece layers")),
        bytes_lt(key("name"), key("piece length")),
        bytes_lt(key("piece layers"), key("piece length")),
        bytes_lt(key("piece length"), key("pieces")),
        bytes_lt(key("length"), key("pieces root")),
{
    reveal_strlit("announce");
    reveal_strlit("announce-list");
    reveal_strlit("created by");
    reveal_strlit("creation date");
    reveal_strlit("info");
    reveal_strlit("url-list");
    reveal_strlit("file tree");
    reveal_strlit("length");
    reveal_strlit("meta version");
    reveal_strlit("name");
    reveal_strlit("piece layers");
    reveal_strlit("piece length");
    reveal_strlit("pieces");
    reveal_strlit("pieces root");
    assert(key("announce-list").take(8) =~= key("announce"));
    lemma_lt_prefix(key("announce"), key("announce-list"));
    assert(key("announce-list").take(0) =~= key("created by").take(0));
    lemma_lt_at(key("announce-list"), key("created by"), 0);
    assert(key("created by").take(5) =~= key("creation date").take(5));
    lemma_lt_at(key("created by"), key("creation date"), 5);
    assert(key("creation date").take(0) =~= key("info").take(0));
    lemma_lt_at(key("creation date"), key("info"), 0);
    assert(key("info").take(0) =~= key("url-list").take(0));
    lemma_lt_at(key("info"), key("url-list"), 0);
    assert(key("file tree").take(0) =~= key("length").take(0));
    lemma_lt_at(key("file tree"), key("length"), 0);
    assert(key("file tree").take(0) =~= key("meta version").take(0));
    lemma_lt_at(key("file tree"), key("meta version"), 0);
    assert(key("length").take(0) =~= key("meta version").take(0));
    lemma_lt_at(key("length"), key("meta version"), 0);
    assert(key("length").take(0) =~= key("name").take(0));
    lemma_lt_at(key("length"), key("name"), 0);
    assert(key("meta version").take(0) =~= key("name").take(0));
    lemma_lt_at(key("meta version"), key("name"), 0);
    assert(key("name").take(0) =~= key("piece layers").take(0));
    lemma_lt_at(key("name"), key("piece layers"), 0);
    assert(key("name").take(0) =~= key("piece length").take(0));
    lemma_lt_at(key("name"), key("piece length"), 0);
    assert(key("piece layers").take(7) =~= key("piece length").take(7));
    lemma_lt_at(key("piece layers"), key("piece length"), 7);
    assert(key("piece length").take(5) =~= key("pieces").take(5));
    lemma_lt_at(key("piece length"), key("pieces"), 5);
    assert(key("length").take(0) =~= key("pieces root").take(0));
    lemma_lt_at(key("length"), key("pieces root"), 0);
}

/// Every info dictionary, whichever fields it holds, is canonical.
proof fn lemma_info_canonical(input: BuildInput, with_v1: bool, v2: Option<V2Summary>)
    ensures
        canonical(BValue::Dict(info_entries(input, with_v1, v2))),
{
    lemma_key_order();
    reveal_with_fuel(canonical, 4);
    let es = info_entries(input, with_v1, v2);
    if let Some(v) = v2 {
        let ft = file_tree(input, v);
        if let BValue::Dict(t) = ft {
            if let BValue::Dict(en) = t[0].1 {
                if let BValue::Dict(lf) = en[0].1 {
                    assert(canonical(lf[0].1));
                    assert(canonical(lf[1].1));
                    assert(canonical(en[0].1));
                }
                assert(canonical(t[0].1));
            }
        }
        assert(canonical(ft));
        if let BValue::Dict(ls) = layers_value(v) {
            assert(canonical(ls[0].1));
        }
        assert(canonical(layers_value(v)));
    }
    assert(keys_ascending(es));
    assert forall|i: int| 0 <= i < es.len() implies #[trigger] canonical(es[i].1) by {}
}

/// Every dictionary of the document, and of the v1 and v2 info
/// dictionaries that are hashed, has its keys in strictly ascending byte
/// order, with no key twice.
pub proof fn lemma_canonical(input: BuildInput)
    requires
        input.trackers@.len() > 0,
    ensures
        canonical(root_value(input)),
        canonical(info_v1(input)),
        forall|v2: V2Summary| #[trigger] canonical(info_v2(input, v2)),
{
    lemma_key_order();
    reveal_with_fuel(canonical, 3);
    lemma_info_canonical(input, true, input.v2);
    lemma_info_canonical(input, true, None);
    assert forall|v2: V2Summary| #[trigger] canonical(info_v2(input, v2)) by {
        lemma_info_canonical(input, false, Some(v2));
    }
    let tl = text_list(input.trackers@);
    let wl = text_list(input.webseeds@);
    assert forall|i: int| 0 <= i < tl.len() implies #[trigger] canonical(tl[i]) by {}
    assert forall|i: int| 0 <= i < wl.len() implies #[trigger] canonical(wl[i]) by {}
    assert(canonical(BValue::List(tl)));
    assert(canonical(BValue::List(seq![BValue::List(tl)])));
    assert(canonical(BValue::List(wl)));
    if let BValue::Dict(es) = root_value(input) {
        assert(keys_ascending(es));
        assert forall|i: int| 0 <= i < es.len() implies #[trigger] canonical(es[i].1) by {}
    }
}

/// The creation date and the creator lie outside the info dictionaries:
/// inputs that differ only there have the same infohashes.
pub proof fn lemma_infohash_ignores_creation(a: BuildInput, b: BuildInput)
    requires
        a.name@ == b.name@,
        a.length == b.length,
        a.piece_length == b.piece_length,
        a.pieces@ == b.pieces@,
        a.v2 == b.v2,
    ensures
        infohash_v1_of(a) == infohash_v1_of(b),
        infohash_v2_of(a) == infohash_v2_of(b),
{
    assert(info_entries(a, true, None) =~= info_entries(b, true, None));
    if let Some(v) = a.v2 {
        assert(info_entries(a, false, Some(v)) =~= info_entries(b, false, Some(v)));
    }
}

/// Without a v2 summary the info dictionary of the document is the v1 one:
/// it holds none of `meta version`, `file tree` and `piece layers`, and
/// there is no v2 infohash.
pub proof fn lemma_v1_only(input: BuildInput)
    requires
        input.v2 is None,
    ensures
        info_combined(input) == info_v1(input),
        infohash_v2_of(input) is None,
        forall|i: int|
            0 <= i < info_entries(input, true, None).len() ==> {
                let k = #[trigger] info_entries(input, true, None)[i].0;
                &&& k != key("meta version")
                &&& k != key("file tree")
                &&& k != key("piece layers")
            },
{
    lemma_key_order();
    reveal_strlit("length");
    reveal_strlit("name");
    reveal_strlit("piece length");
    reveal_strlit("pieces");
    reveal_strlit("meta version");
    reveal_strlit("file tree");
    reveal_strlit("piece layers");
    let es = info_entries(input, true, None);
    assert(es.len() == 4);
    assert(key("piece length")[7] != key("piece layers")[7]);
    assert(key("piece length")[0] != key("meta version")[0]);
}

/// Decoding the document and encoding the result again reproduces the
/// document byte for byte.
pub proof fn lemma_document_round_trip(input: BuildInput)
    ensures
        decode(encode(root_value(input))) == Some(root_value(input)),
        encode(decode(encode(root_value(input)))->0) == encode(root_value(input)),
{
    lemma_round_trip(root_value(input));
}

} // verus!
