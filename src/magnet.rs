//! Magnet links for the built torrent.
use crate::metainfo::text;
use crate::util::push_str;
use vstd::prelude::*;
use vstd::string::*;

verus! {

/// Lower-case hexadecimal digits, by value.
pub open spec fn lower_digits() -> Seq<char> {
    "0123456789abcdef"@
}

/// Upper-case hexadecimal digits, by value.
pub open spec fn upper_digits() -> Seq<char> {
    "0123456789ABCDEF"@
}

/// Two lower-case hex digits per byte, high nibble first.
pub open spec fn lower_hex(b: Seq<u8>) -> Seq<char>
    decreases b.len(),
{
    if b.len() == 0 {
        Seq::empty()
    } else {
        lower_hex(b.drop_last()) + seq![
            lower_digits()[(b.last() / 16) as int],
            lower_digits()[(b.last() % 16) as int],
        ]
    }
}

/// Bytes left as they are in a magnet parameter: ASCII letters and digits
/// and `-`, `_`, `.`, `~`.
pub open spec fn is_unreserved(b: u8) -> bool {
    ('a' as u8 <= b && b <= 'z' as u8) || ('A' as u8 <= b && b <= 'Z' as u8) || ('0' as u8 <= b
        && b <= '9' as u8) || b == '-' as u8 || b == '_' as u8 || b == '.' as u8 || b == '~' as u8
}

/// `%` and two upper-case hex digits.
pub open spec fn escaped(b: u8) -> Seq<char> {
    seq!['%', upper_digits()[(b / 16) as int], upper_digits()[(b % 16) as int]]
}

/// Percent-encoding of bytes for a magnet parameter.
pub open spec fn pct_encoded(b: Seq<u8>) -> Seq<char>
    decreases b.len(),
{
    if b.len() == 0 {
        Seq::empty()
    } else {
        pct_encoded(b.drop_last()) + if is_unreserved(b.last()) {
            seq![b.last() as char]
        } else {
            escaped(b.last())
        }
    }
}

/// `prefix` and the encoded text, for each item in order.
pub open spec fn params(prefix: Seq<char>, items: Seq<String>) -> Seq<char>
    decreases items.len(),
{
    if items.len() == 0 {
        Seq::empty()
    } else {
        params(prefix, items.drop_last()) + prefix + pct_encoded(text(items.last()@))
    }
}

/// The parameters both kinds of link share: name, trackers, web seeds.
pub open spec fn common_params(name: Seq<char>, trackers: Seq<String>, webseeds: Seq<String>) -> Seq<
    char,
> {
    "&dn="@ + pct_encoded(text(name)) + params("&tr="@, trackers) + params("&ws="@, webseeds)
}

/// The v1 link.
pub open spec fn btih_link(
    name: Seq<char>,
    trackers: Seq<String>,
    webseeds: Seq<String>,
    hash: [u8; 20],
) -> Seq<char> {
    "magnet:?xt=urn:btih:"@ + lower_hex(hash@) + common_params(name, trackers, webseeds)
}

/// The v2 link: the hash as a multihash (SHA-256 code, 32 bytes).
pub open spec fn btmh_link(
    name: Seq<char>,
    trackers: Seq<String>,
    webseeds: Seq<String>,
    hash: [u8; 32],
) -> Seq<char> {
    "magnet:?xt=urn:btmh:1220"@ + lower_hex(hash@) + common_params(name, trackers, webseeds)
}

/// The links for whichever infohashes are present, v1 first.
pub open spec fn magnets_of(
    name: Seq<char>,
    trackers: Seq<String>,
    webseeds: Seq<String>,
    infohash_v1: Option<[u8; 20]>,
    infohash_v2: Option<[u8; 32]>,
) -> Seq<Seq<char>> {
    let a = match infohash_v1 {
        Some(h) => seq![btih_link(name, trackers, webseeds, h)],
        None => Seq::empty(),
    };
    let b = match infohash_v2 {
        Some(h) => seq![btmh_link(name, trackers, webseeds, h)],
        None => Seq::empty(),
    };
    a + b
}

/// Relies on `hex::encode`: two lower-case hex digits per byte, high
/// nibble first.
#[verifier::external_body]
fn to_hex(b: &[u8]) -> (r: String)
    ensures
        r@ == lower_hex(b@),
{
    hex::encode(b)
}

/// Relies on `percent_encoding::percent_encode_byte`: `%` and the byte in
/// two upper-case hex digits.
#[verifier::external_body]
fn percent_byte(b: u8) -> (r: &'static str)
    ensures
        r@ == escaped(b),
{
    percent_encoding::percent_encode_byte(b)
}

/// Appends the percent-encoding of the bytes of `value`.
fn push_encoded(out: &mut String, value: &str)
    ensures
        final(out)@ == old(out)@ + pct_encoded(text(value@)),
{
    let b = value.as_bytes();
    let mut i: usize = 0;
    while i < b.len()
        invariant
            i <= b@.len(),
            b@ == text(value@),
            out@ == old(out)@ + pct_encoded(b@.take(i as int)),
        decreases b@.len() - i,
    {
        let x = b[i];
        if ('a' as u8 <= x && x <= 'z' as u8) || ('A' as u8 <= x && x <= 'Z' as u8) || ('0' as u8
            <= x && x <= '9' as u8) || x == '-' as u8 || x == '_' as u8 || x == '.' as u8 || x
            == '~' as u8 {
            crate::util::push_char(out, x as char);
        } else {
            push_str(out, percent_byte(x));
        }
        assert(b@.take(i + 1).drop_last() =~= b@.take(i as int));
        i += 1;
    }
    assert(b@.take(i as int) =~= b@);
}

/// Appends `prefix` and the encoded item, for each item.
fn push_params(out: &mut String, prefix: &str, items: &[String])
    ensures
        final(out)@ == old(out)@ + params(prefix@, items@),
{
    let mut i: usize = 0;
    while i < items.len()
        invariant
            i <= items@.len(),
            out@ == old(out)@ + params(prefix@, items@.take(i as int)),
        decreases items@.len() - i,
    {
        push_str(out, prefix);
        push_encoded(out, items[i].as_str());
        assert(items@.take(i + 1).drop_last() =~= items@.take(i as int));
        i += 1;
    }
    assert(items@.take(i as int) =~= items@);
}

fn append_common(out: &mut String, name: &str, trackers: &[String], webseeds: &[String])
    ensures
        final(out)@ == old(out)@ + common_params(name@, trackers@, webseeds@),
{
    push_str(out, "&dn=");
    push_encoded(out, name);
    push_params(out, "&tr=", trackers);
    push_params(out, "&ws=", webseeds);
    assert(out@ =~= old(out)@ + common_params(name@, trackers@, webseeds@));
}

/// The magnet links for the infohashes that are present: a `btih` link for
/// the v1 hash, then a `btmh` link for the v2 hash, each with the name, the
/// trackers and the web seeds.
pub fn build_magnets(
    name: &str,
    trackers: &[String],
    webseeds: &[String],
    infohash_v1: Option<[u8; 20]>,
    infohash_v2: Option<[u8; 32]>,
) -> (r: Vec<String>)
    ensures
        r@.len() == magnets_of(name@, trackers@, webseeds@, infohash_v1, infohash_v2).len(),
        forall|i: int|
            0 <= i < r@.len() ==> #[trigger] r@[i]@ == magnets_of(
                name@,
                trackers@,
                webseeds@,
                infohash_v1,
                infohash_v2,
            )[i],
{
    let mut magnets: Vec<String> = Vec::new();
    if let Some(hash) = infohash_v1 {
        let mut m = "magnet:?xt=urn:btih:".to_owned();
        let h = to_hex(hash.as_slice());
        push_str(&mut m, h.as_str());
        append_common(&mut m, name, trackers, webseeds);
        magnets.push(m);
    }
    if let Some(hash) = infohash_v2 {
        let mut m = "magnet:?xt=urn:btmh:1220".to_owned();
        let h = to_hex(hash.as_slice());
        push_str(&mut m, h.as_str());
        append_common(&mut m, name, trackers, webseeds);
        magnets.push(m);
    }
    magnets
}

} // verus!
