//! Canonical bencode: the value model, its byte encoding, and emitters
//! that append the encoding of a value to a buffer.
use crate::bytes::{append_ascii, append_bytes, ascii_bytes};
use vstd::prelude::*;

verus! {

/// A bencode value. A dictionary is its entries in the order in which they
/// are encoded.
pub enum BValue {
    Int(int),
    Str(Seq<u8>),
    List(Seq<BValue>),
    Dict(Seq<(Seq<u8>, BValue)>),
}

/// Decimal digits of `n`, most significant first, without leading zeros.
pub open spec fn decimal(n: nat) -> Seq<u8>
    decreases n,
{
    if n < 10 {
        seq![('0' as u8 + n) as u8]
    } else {
        decimal(n / 10) + seq![('0' as u8 + n % 10) as u8]
    }
}

/// Decimal text of a signed integer.
pub open spec fn int_text(i: int) -> Seq<u8> {
    if i < 0 {
        seq!['-' as u8] + decimal((-i) as nat)
    } else {
        decimal(i as nat)
    }
}

/// `<length>:<bytes>`.
pub open spec fn encode_str(s: Seq<u8>) -> Seq<u8> {
    decimal(s.len()) + seq![':' as u8] + s
}

/// Encoding of a value.
pub open spec fn encode(v: BValue) -> Seq<u8>
    decreases v,
{
    match v {
        BValue::Int(i) => seq!['i' as u8] + int_text(i) + seq!['e' as u8],
        BValue::Str(s) => encode_str(s),
        BValue::List(items) => seq!['l' as u8] + encode_items(items) + seq!['e' as u8],
        BValue::Dict(entries) => seq!['d' as u8] + encode_entries(entries) + seq!['e' as u8],
    }
}

/// Encodings of list items, concatenated.
pub open spec fn encode_items(items: Seq<BValue>) -> Seq<u8>
    decreases items,
{
    if items.len() == 0 {
        Seq::empty()
    } else {
        encode_items(items.subrange(0, items.len() - 1)) + encode(items[items.len() - 1])
    }
}

/// Encodings of dictionary entries, each key followed by its value.
pub open spec fn encode_entries(entries: Seq<(Seq<u8>, BValue)>) -> Seq<u8>
    decreases entries,
{
    if entries.len() == 0 {
        Seq::empty()
    } else {
        encode_entries(entries.subrange(0, entries.len() - 1)) + encode_str(
            entries[entries.len() - 1].0,
        ) + encode(entries[entries.len() - 1].1)
    }
}

/// Byte-lexicographic order: `a` sorts strictly before `b`.
pub open spec fn bytes_lt(a: Seq<u8>, b: Seq<u8>) -> bool {
    exists|k: int|
        0 <= k <= a.len() && k <= b.len() && #[trigger] a.take(k) == b.take(k) && ((k == a.len()
            && k < b.len()) || (k < a.len() && k < b.len() && a[k] < b[k]))
}

/// Keys of a dictionary in strictly ascending byte order (hence unique).
pub open spec fn keys_ascending(entries: Seq<(Seq<u8>, BValue)>) -> bool {
    forall|i: int|
        0 <= i && i + 1 < entries.len() ==> #[trigger] bytes_lt(entries[i].0, entries[i + 1].0)
}

/// Every dictionary within `v`, `v` included, has its keys in strictly
/// ascending byte order.
pub open spec fn canonical(v: BValue) -> bool
    decreases v,
{
    match v {
        BValue::Int(_) => true,
        BValue::Str(_) => true,
        BValue::List(items) => forall|i: int| 0 <= i < items.len() ==> #[trigger] canonical(items[i]),
        BValue::Dict(entries) => keys_ascending(entries) && forall|i: int|
            0 <= i < entries.len() ==> #[trigger] canonical(entries[i].1),
    }
}

/// One more list item appends its encoding.
pub proof fn lemma_items_push(items: Seq<BValue>, v: BValue)
    ensures
        encode_items(items.push(v)) == encode_items(items) + encode(v),
{
    assert(items.push(v).subrange(0, items.len() as int) =~= items);
}

/// One more dictionary entry appends its key and value encodings.
pub proof fn lemma_entries_push(entries: Seq<(Seq<u8>, BValue)>, k: Seq<u8>, v: BValue)
    ensures
        encode_entries(entries.push((k, v))) == encode_entries(entries) + encode_str(k) + encode(v),
{
    assert(entries.push((k, v)).subrange(0, entries.len() as int) =~= entries);
}

/// An empty dictionary body.
pub proof fn lemma_dict_begin(start: Seq<u8>)
    ensures
        start == start + encode_entries(Seq::empty()),
{
    assert(start =~= start + Seq::<u8>::empty());
}

/// One more entry written after a dictionary body.
pub proof fn lemma_dict_step(
    start: Seq<u8>,
    es: Seq<(Seq<u8>, BValue)>,
    k: Seq<u8>,
    v: BValue,
    mid: Seq<u8>,
    after: Seq<u8>,
)
    requires
        mid == start + encode_entries(es),
        after == mid + encode(BValue::Str(k)) + encode(v),
    ensures
        after == start + encode_entries(es.push((k, v))),
{
    lemma_entries_push(es, k, v);
    assert(after =~= start + encode_entries(es.push((k, v))));
}

/// A dictionary body between `d` and `e`.
pub proof fn lemma_dict_end(
    before: Seq<u8>,
    es: Seq<(Seq<u8>, BValue)>,
    body: Seq<u8>,
    after: Seq<u8>,
)
    requires
        body == before.push('d' as u8) + encode_entries(es),
        after == body.push('e' as u8),
    ensures
        after == before + encode(BValue::Dict(es)),
{
    assert(after =~= before + encode(BValue::Dict(es)));
}

/// Appends the decimal digits of `n`.
pub fn put_decimal(out: &mut Vec<u8>, n: u64)
    ensures
        final(out)@ == old(out)@ + decimal(n as nat),
    decreases n,
{
    if n >= 10 {
        put_decimal(out, n / 10);
    }
    let d = (n % 10) as u8;
    out.push('0' as u8 + d);
    assert(final(out)@ =~= old(out)@ + decimal(n as nat)) by {
        if n >= 10 {
            assert(decimal(n as nat) == decimal((n / 10) as nat) + seq![('0' as u8 + n % 10) as u8]);
        }
    }
}

/// Appends `i<decimal>e`.
pub fn put_int(out: &mut Vec<u8>, i: i64)
    ensures
        final(out)@ == old(out)@ + encode(BValue::Int(i as int)),
{
    out.push('i' as u8);
    let ghost start = out@;
    if i < 0 {
        out.push('-' as u8);
        let m: u64 = (-(i as i128)) as u64;
        put_decimal(out, m);
    } else {
        put_decimal(out, i as u64);
    }
    assert(out@ =~= start + int_text(i as int));
    out.push('e' as u8);
    assert(out@ =~= old(out)@ + encode(BValue::Int(i as int)));
}

/// Appends `<length>:<bytes>`.
pub fn put_bytes(out: &mut Vec<u8>, b: &[u8])
    ensures
        final(out)@ == old(out)@ + encode(BValue::Str(b@)),
{
    put_decimal(out, b.len() as u64);
    out.push(':' as u8);
    append_bytes(out, b);
    assert(final(out)@ =~= old(out)@ + encode(BValue::Str(b@)));
}

/// Appends the byte string made of the characters of `k`.
pub fn put_key(out: &mut Vec<u8>, k: &str)
    ensures
        final(out)@ == old(out)@ + encode(BValue::Str(ascii_bytes(k@))),
{
    let n = k.unicode_len();
    put_decimal(out, n as u64);
    out.push(':' as u8);
    append_ascii(out, k);
    assert(final(out)@ =~= old(out)@ + encode(BValue::Str(ascii_bytes(k@))));
}

} // verus!
