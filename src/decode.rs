//! Bencode decoding, as a specification, and the proof that it inverts
//! the encoding.
use crate::bencode::{decimal, encode, encode_entries, encode_items, encode_str, int_text, BValue};
use vstd::prelude::*;

verus! {

pub open spec fn is_digit(b: u8) -> bool {
    '0' as u8 <= b && b <= '9' as u8
}

/// Number of leading decimal digits.
pub open spec fn digit_run(b: Seq<u8>) -> nat
    decreases b.len(),
{
    if b.len() > 0 && is_digit(b[0]) {
        1 + digit_run(b.skip(1))
    } else {
        0
    }
}

/// Value of a string of decimal digits.
pub open spec fn digits_value(d: Seq<u8>) -> nat
    decreases d.len(),
{
    if d.len() == 0 {
        0
    } else {
        digits_value(d.drop_last()) * 10 + (d.last() - '0' as u8) as nat
    }
}

/// Non-empty, and no leading zero but in `0` itself.
pub open spec fn canonical_digits(d: Seq<u8>) -> bool {
    d.len() > 0 && (d[0] != '0' as u8 || d.len() == 1)
}

/// A natural number in decimal, then the byte `t`: the number and the
/// bytes read, `t` included.
pub open spec fn read_nat(b: Seq<u8>, t: u8) -> Option<(nat, nat)> {
    let k = digit_run(b);
    if canonical_digits(b.take(k as int)) && k < b.len() && b[k as int] == t {
        Some((digits_value(b.take(k as int)), k + 1))
    } else {
        None
    }
}

/// The text of an integer up to and including its closing `e`.
pub open spec fn read_int(b: Seq<u8>) -> Option<(int, nat)> {
    if b.len() > 0 && b[0] == '-' as u8 {
        match read_nat(b.skip(1), 'e' as u8) {
            Some((n, k)) => if n > 0 {
                Some((-n, k + 1))
            } else {
                None
            },
            None => None,
        }
    } else {
        match read_nat(b, 'e' as u8) {
            Some((n, k)) => Some((n as int, k)),
            None => None,
        }
    }
}

/// A byte string `<length>:<bytes>`.
pub open spec fn read_str(b: Seq<u8>) -> Option<(Seq<u8>, nat)> {
    match read_nat(b, ':' as u8) {
        Some((n, k)) => if k + n <= b.len() {
            Some((b.subrange(k as int, (k + n) as int), k + n))
        } else {
            None
        },
        None => None,
    }
}

/// The value at the start of `b`, and the number of bytes it takes.
pub open spec fn decode_value(b: Seq<u8>) -> Option<(BValue, nat)>
    decreases b.len(), 0nat,
{
    if b.len() == 0 {
        None
    } else if b[0] == 'i' as u8 {
        match read_int(b.skip(1)) {
            Some((i, k)) => Some((BValue::Int(i), k + 1)),
            None => None,
        }
    } else if b[0] == 'l' as u8 {
        match decode_items(b.skip(1)) {
            Some((items, k)) => Some((BValue::List(items), k + 1)),
            None => None,
        }
    } else if b[0] == 'd' as u8 {
        match decode_entries(b.skip(1)) {
            Some((entries, k)) => Some((BValue::Dict(entries), k + 1)),
            None => None,
        }
    } else {
        match read_str(b) {
            Some((s, k)) => Some((BValue::Str(s), k)),
            None => None,
        }
    }
}

/// List items up to and including the closing `e`.
pub open spec fn decode_items(b: Seq<u8>) -> Option<(Seq<BValue>, nat)>
    decreases b.len(), 1nat,
{
    if b.len() == 0 {
        None
    } else if b[0] == 'e' as u8 {
        Some((Seq::empty(), 1))
    } else {
        match decode_value(b) {
            Some((v, k)) => if 0 < k <= b.len() {
                match decode_items(b.skip(k as int)) {
                    Some((rest, j)) => Some((seq![v] + rest, k + j)),
                    None => None,
                }
            } else {
                None
            },
            None => None,
        }
    }
}

/// Dictionary entries up to and including the closing `e`.
pub open spec fn decode_entries(b: Seq<u8>) -> Option<(Seq<(Seq<u8>, BValue)>, nat)>
    decreases b.len(), 1nat,
{
    if b.len() == 0 {
        None
    } else if b[0] == 'e' as u8 {
        Some((Seq::empty(), 1))
    } else {
        match read_str(b) {
            Some((key, k)) => if 0 < k <= b.len() {
                match decode_value(b.skip(k as int)) {
                    Some((v, j)) => if 0 < j <= b.len() - k {
                        match decode_entries(b.skip((k + j) as int)) {
                            Some((rest, m)) => Some((seq![(key, v)] + rest, k + j + m)),
                            None => None,
                        }
                    } else {
                        None
                    },
                    None => None,
                }
            } else {
                None
            },
            None => None,
        }
    }
}

/// The value that `b` encodes, when `b` is exactly one encoded value.
pub open spec fn decode(b: Seq<u8>) -> Option<BValue> {
    match decode_value(b) {
        Some((v, k)) => if k == b.len() {
            Some(v)
        } else {
            None
        },
        None => None,
    }
}

proof fn lemma_decimal_digits(n: nat)
    ensures
        decimal(n).len() > 0,
        n >= 10 ==> decimal(n).len() >= 2,
        forall|i: int| 0 <= i < decimal(n).len() ==> is_digit(#[trigger] decimal(n)[i]),
        canonical_digits(decimal(n)),
        digits_value(decimal(n)) == n,
    decreases n,
{
    let d = decimal(n);
    if n >= 10 {
        let q = n / 10;
        lemma_decimal_digits(q);
        assert(d.drop_last() =~= decimal(q));
        assert(d[0] == decimal(q)[0]);
        assert(q >= 1);
        if q < 10 {
            assert(decimal(q)[0] == ('0' as u8 + q) as u8);
        }
        assert(decimal(q)[0] != '0' as u8);
        assert(d.len() >= 2);
        assert(d.last() == ('0' as u8 + n % 10) as u8);
        assert(digits_value(d) == digits_value(decimal(q)) * 10 + n % 10);
        assert(q * 10 + n % 10 == n);
    } else {
        assert(d.drop_last() =~= Seq::<u8>::empty());
        assert(digits_value(d) == digits_value(d.drop_last()) * 10 + (d.last() - '0' as u8) as nat);
    }
}

proof fn lemma_digit_run(d: Seq<u8>, rest: Seq<u8>)
    requires
        forall|i: int| 0 <= i < d.len() ==> is_digit(#[trigger] d[i]),
        rest.len() > 0,
        !is_digit(rest[0]),
    ensures
        digit_run(d + rest) == d.len(),
    decreases d.len(),
{
    if d.len() > 0 {
        assert((d + rest).skip(1) =~= d.skip(1) + rest);
        lemma_digit_run(d.skip(1), rest);
    } else {
        assert(d + rest =~= rest);
    }
}

proof fn lemma_read_nat(n: nat, t: u8, rest: Seq<u8>)
    requires
        !is_digit(t),
    ensures
        read_nat(decimal(n) + seq![t] + rest, t) == Some((n, decimal(n).len() + 1)),
{
    let d = decimal(n);
    let b = d + seq![t] + rest;
    lemma_decimal_digits(n);
    assert(b =~= d + (seq![t] + rest));
    lemma_digit_run(d, seq![t] + rest);
    assert(b.take(d.len() as int) =~= d);
}

proof fn lemma_read_str(s: Seq<u8>, rest: Seq<u8>)
    ensures
        read_str(encode_str(s) + rest) == Some((s, encode_str(s).len())),
{
    let d = decimal(s.len());
    let b = encode_str(s) + rest;
    assert(b =~= d + seq![':' as u8] + (s + rest));
    lemma_read_nat(s.len(), ':' as u8, s + rest);
    assert(b.subrange((d.len() + 1) as int, (d.len() + 1 + s.len()) as int) =~= s);
}

/// Every encoding starts with `i`, `l`, `d` or a digit.
proof fn lemma_first_byte(v: BValue)
    ensures
        encode(v).len() > 0,
        encode(v)[0] == 'i' as u8 || encode(v)[0] == 'l' as u8 || encode(v)[0] == 'd' as u8
            || is_digit(encode(v)[0]),
{
    if let BValue::Str(s) = v {
        lemma_decimal_digits(s.len());
        assert(encode(v)[0] == decimal(s.len())[0]);
    }
}

proof fn lemma_items_front(items: Seq<BValue>)
    requires
        items.len() > 0,
    ensures
        encode_items(items) == encode(items[0]) + encode_items(items.skip(1)),
    decreases items.len(),
{
    if items.len() == 1 {
        assert(items.subrange(0, 0) =~= Seq::<BValue>::empty());
        assert(items.skip(1) =~= Seq::<BValue>::empty());
        assert(encode_items(items) =~= encode(items[0]) + encode_items(items.skip(1)));
    } else {
        let init = items.subrange(0, items.len() - 1);
        lemma_items_front(init);
        assert(init.skip(1) =~= items.skip(1).subrange(0, items.len() - 2));
        assert(encode_items(items) =~= encode(items[0]) + encode_items(items.skip(1)));
    }
}

proof fn lemma_entries_front(entries: Seq<(Seq<u8>, BValue)>)
    requires
        entries.len() > 0,
    ensures
        encode_entries(entries) == encode_str(entries[0].0) + encode(entries[0].1)
            + encode_entries(entries.skip(1)),
    decreases entries.len(),
{
    if entries.len() == 1 {
        assert(entries.subrange(0, 0) =~= Seq::<(Seq<u8>, BValue)>::empty());
        assert(entries.skip(1) =~= Seq::<(Seq<u8>, BValue)>::empty());
        assert(encode_entries(entries) =~= encode_str(entries[0].0) + encode(entries[0].1)
            + encode_entries(entries.skip(1)));
    } else {
        let init = entries.subrange(0, entries.len() - 1);
        lemma_entries_front(init);
        assert(init.skip(1) =~= entries.skip(1).subrange(0, entries.len() - 2));
        assert(encode_entries(entries) =~= encode_str(entries[0].0) + encode(entries[0].1)
            + encode_entries(entries.skip(1)));
    }
}

proof fn lemma_decode_value(v: BValue, rest: Seq<u8>)
    ensures
        decode_value(encode(v) + rest) == Some((v, encode(v).len())),
    decreases v, 0nat,
{
    let b = encode(v) + rest;
    match v {
        BValue::Int(i) => {
            let t = int_text(i);
            assert(b.skip(1) =~= t + seq!['e' as u8] + rest);
            if i < 0 {
                let m = (-i) as nat;
                assert(b.skip(1).skip(1) =~= decimal(m) + seq!['e' as u8] + rest);
                lemma_read_nat(m, 'e' as u8, rest);
            } else {
                lemma_decimal_digits(i as nat);
                assert(is_digit(decimal(i as nat)[0]));
                lemma_read_nat(i as nat, 'e' as u8, rest);
            }
        },
        BValue::Str(s) => {
            lemma_decimal_digits(s.len());
            assert(b[0] == decimal(s.len())[0]);
            lemma_read_str(s, rest);
        },
        BValue::List(items) => {
            assert(b.skip(1) =~= encode_items(items) + (seq!['e' as u8] + rest));
            lemma_decode_items(items, rest);
        },
        BValue::Dict(entries) => {
            assert(b.skip(1) =~= encode_entries(entries) + (seq!['e' as u8] + rest));
            lemma_decode_entries(entries, rest);
        },
    }
}

proof fn lemma_decode_items(items: Seq<BValue>, rest: Seq<u8>)
    ensures
        decode_items(encode_items(items) + (seq!['e' as u8] + rest)) == Some(
            (items, encode_items(items).len() + 1),
        ),
    decreases items, 1nat,
{
    let b = encode_items(items) + (seq!['e' as u8] + rest);
    if items.len() == 0 {
        assert(b =~= seq!['e' as u8] + rest);
    } else {
        let tail = items.subrange(1, items.len() as int);
        assert(tail =~= items.skip(1));
        lemma_items_front(items);
        let e0 = encode(items[0]);
        lemma_first_byte(items[0]);
        assert(b =~= e0 + (encode_items(tail) + (seq!['e' as u8] + rest)));
        lemma_decode_value(items[0], encode_items(tail) + (seq!['e' as u8] + rest));
        assert(b.skip(e0.len() as int) =~= encode_items(tail) + (seq!['e' as u8] + rest));
        lemma_decode_items(tail, rest);
        assert(seq![items[0]] + tail =~= items);
    }
}

/// One dictionary entry, as the entry decoder reads it.
proof fn lemma_decode_entry(k0: Seq<u8>, v0: BValue, after: Seq<u8>)
    ensures
        ({
            let b = encode_str(k0) + encode(v0) + after;
            let kl = encode_str(k0).len();
            let vl = encode(v0).len();
            &&& b.len() > 0
            &&& b[0] != 'e' as u8
            &&& read_str(b) == Some((k0, kl))
            &&& 0 < kl <= b.len()
            &&& decode_value(b.skip(kl as int)) == Some((v0, vl))
            &&& 0 < vl <= b.len() - kl
            &&& b.skip((kl + vl) as int) == after
        }),
    decreases v0, 1nat,
{
    let ek = encode_str(k0);
    let ev = encode(v0);
    let b = ek + ev + after;
    lemma_decimal_digits(k0.len());
    assert(b[0] == decimal(k0.len())[0]);
    assert(b =~= ek + (ev + after));
    lemma_read_str(k0, ev + after);
    assert(b.skip(ek.len() as int) =~= ev + after);
    lemma_first_byte(v0);
    lemma_decode_value(v0, after);
    assert(b.skip((ek.len() + ev.len()) as int) =~= after);
}

proof fn lemma_decode_entries(entries: Seq<(Seq<u8>, BValue)>, rest: Seq<u8>)
    ensures
        decode_entries(encode_entries(entries) + (seq!['e' as u8] + rest)) == Some(
            (entries, encode_entries(entries).len() + 1),
        ),
    decreases entries, 1nat,
{
    let b = encode_entries(entries) + (seq!['e' as u8] + rest);
    if entries.len() == 0 {
        assert(b =~= seq!['e' as u8] + rest);
    } else {
        let tail = entries.subrange(1, entries.len() as int);
        assert(tail =~= entries.skip(1));
        lemma_entries_front(entries);
        let k0 = entries[0].0;
        let v0 = entries[0].1;
        let after = encode_entries(tail) + (seq!['e' as u8] + rest);
        assert(b =~= encode_str(k0) + encode(v0) + after);
        lemma_decode_entry(k0, v0, after);
        lemma_decode_entries(tail, rest);
        assert(seq![(k0, v0)] + tail =~= entries);
    }
}

/// Decoding inverts encoding: decoding the encoding of any value gives the
/// value back, so encoding it again reproduces the same bytes.
pub proof fn lemma_round_trip(v: BValue)
    ensures
        decode(encode(v)) == Some(v),
        encode(decode(encode(v))->0) == encode(v),
{
    lemma_decode_value(v, Seq::empty());
    assert(encode(v) + Seq::<u8>::empty() =~= encode(v));
}

} // verus!
