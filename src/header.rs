//! The file name that a `Content-Disposition` header suggests.
use crate::util::{is_space, is_white_space, push_char, skip_white, trim, trimmed};
use vstd::prelude::*;
use vstd::string::*;

verus! {

/// The view of an optional text.
pub open spec fn opt_view(r: Option<String>) -> Option<Seq<char>> {
    match r {
        Some(s) => Some(s@),
        None => None,
    }
}

/// `t` begins with `p`.
pub open spec fn starts_with(t: Seq<char>, p: Seq<char>) -> bool {
    p.len() <= t.len() && t.take(p.len() as int) == p
}

/// Index of the first `c` at or after `from`, or the length if none.
pub open spec fn find_from(s: Seq<char>, c: char, from: nat) -> nat
    decreases s.len() - from,
{
    if from >= s.len() {
        s.len()
    } else if s[from as int] == c {
        from
    } else {
        find_from(s, c, from + 1)
    }
}

/// The parts of `s` between occurrences of `c`; there is always at least
/// one, possibly empty.
pub open spec fn split_on(s: Seq<char>, c: char) -> Seq<Seq<char>>
    decreases s.len(),
{
    if s.len() == 0 {
        seq![Seq::empty()]
    } else {
        let p = split_on(s.drop_last(), c);
        if s.last() == c {
            p.push(Seq::empty())
        } else {
            p.update(p.len() - 1, p.last().push(s.last()))
        }
    }
}

/// The UTF-8 text that percent-decoding `s` gives, if it is valid UTF-8.
pub uninterp spec fn percent_decoded(s: Seq<char>) -> Option<Seq<char>>;

/// Relies on `percent_encoding::percent_decode_str` and then
/// `PercentDecode::decode_utf8`: percent-decodes the text and keeps the
/// result if it is valid UTF-8; the outcome depends on the text alone.
#[verifier::external_body]
fn percent_decode_text(s: &str) -> (r: Option<String>)
    ensures
        opt_view(r) == percent_decoded(s@),
{
    percent_encoding::percent_decode_str(s).decode_utf8().ok().map(|c| c.into_owned())
}

/// A value, trimmed, with one pair of surrounding double quotes removed;
/// nothing for an empty value.
pub open spec fn unquoted(value: Seq<char>) -> Option<Seq<char>> {
    let t = trimmed(value);
    if t.len() >= 2 && t[0] == '"' && t[t.len() - 1] == '"' {
        Some(t.subrange(1, t.len() - 1))
    } else if t.len() > 0 {
        Some(t)
    } else {
        None
    }
}

/// The name in an extended `filename*=charset'language'encoded` value:
/// the part after the second `'`, percent-decoded.
pub open spec fn extended_value(v: Seq<char>) -> Option<Seq<char>> {
    let i1 = find_from(v, '\'', 0);
    if i1 >= v.len() {
        None
    } else {
        let i2 = find_from(v, '\'', i1 + 1);
        if i2 >= v.len() {
            None
        } else {
            percent_decoded(v.skip((i2 + 1) as int))
        }
    }
}

/// One header parameter read: a decoded `filename*=` settles the result,
/// and a `filename=` replaces the plain name found so far.
pub open spec fn disposition_step(
    state: (Option<Seq<char>>, Option<Seq<char>>),
    part: Seq<char>,
) -> (Option<Seq<char>>, Option<Seq<char>>) {
    let p = trimmed(part);
    if state.0 is Some {
        state
    } else if starts_with(p, "filename*="@) {
        (extended_value(p.skip("filename*="@.len() as int)), state.1)
    } else if starts_with(p, "filename="@) {
        (None, unquoted(trimmed(p.skip("filename="@.len() as int))))
    } else {
        state
    }
}

/// The parameters read from left to right.
pub open spec fn disposition_fold(parts: Seq<Seq<char>>) -> (Option<Seq<char>>, Option<Seq<char>>)
    decreases parts.len(),
{
    if parts.len() == 0 {
        (None, None)
    } else {
        disposition_step(disposition_fold(parts.drop_last()), parts.last())
    }
}

/// The file name a `Content-Disposition` value suggests: the first
/// `filename*=` that decodes, else the last `filename=`.
pub open spec fn disposition_name(header: Seq<char>) -> Option<Seq<char>> {
    let r = disposition_fold(split_on(header, ';'));
    if r.0 is Some {
        r.0
    } else {
        r.1
    }
}

/// Whether `t` begins with `p`.
fn has_prefix(t: &str, p: &str) -> (r: bool)
    ensures
        r == starts_with(t@, p@),
{
    let n = p.unicode_len();
    if n > t.unicode_len() {
        return false;
    }
    let mut i: usize = 0;
    while i < n
        invariant
            n == p@.len(),
            n <= t@.len(),
            i <= n,
            forall|j: int| 0 <= j < i ==> t@[j] == p@[j],
        decreases n - i,
    {
        if t.get_char(i) != p.get_char(i) {
            assert(t@.take(n as int)[i as int] != p@[i as int]);
            return false;
        }
        i += 1;
    }
    assert(t@.take(n as int) =~= p@);
    true
}

/// Index of the first `c` at or after `from`, or the length if none.
fn find_char(s: &str, c: char, from: usize) -> (r: usize)
    ensures
        r == find_from(s@, c, from as nat),
        r <= s@.len(),
        from <= s@.len() ==> from <= r,
{
    let n = s.unicode_len();
    let mut i = from;
    while i < n
        invariant
            n == s@.len(),
            from <= i,
            find_from(s@, c, from as nat) == find_from(s@, c, i as nat),
        decreases n - i,
    {
        if s.get_char(i) == c {
            return i;
        }
        i += 1;
    }
    n
}

/// Removes surrounding white space and one pair of surrounding double
/// quotes; an empty value gives nothing.
pub fn strip_quotes(value: &str) -> (r: Option<String>)
    ensures
        opt_view(r) == unquoted(value@),
{
    let t = trim(value);
    let n = t.unicode_len();
    if n >= 2 && t.get_char(0) == '"' && t.get_char(n - 1) == '"' {
        Some(t.substring_char(1, n - 1).to_owned())
    } else if n > 0 {
        Some(t.to_owned())
    } else {
        None
    }
}

/// Reads `charset'language'encoded` and percent-decodes the encoded part.
pub fn parse_rfc5987(value: &str) -> (r: Option<String>)
    ensures
        opt_view(r) == extended_value(value@),
{
    let n = value.unicode_len();
    let i1 = find_char(value, '\'', 0);
    if i1 >= n {
        return None;
    }
    let i2 = find_char(value, '\'', i1 + 1);
    if i2 >= n {
        return None;
    }
    percent_decode_text(value.substring_char(i2 + 1, n))
}

fn read_parameter(part: &str, ret: &mut Option<String>, fname: &mut Option<String>)
    ensures
        (opt_view(*final(ret)), opt_view(*final(fname))) == disposition_step(
            (opt_view(*old(ret)), opt_view(*old(fname))),
            part@,
        ),
{
    if ret.is_some() {
        return;
    }
    let p = trim(part);
    let n = p.unicode_len();
    if has_prefix(p, "filename*=") {
        let k = "filename*=".unicode_len();
        *ret = parse_rfc5987(p.substring_char(k, n));
        assert(p@.subrange(k as int, n as int) =~= p@.skip("filename*="@.len() as int));
    } else if has_prefix(p, "filename=") {
        let k = "filename=".unicode_len();
        let rest = p.substring_char(k, n);
        assert(rest@ =~= p@.skip("filename="@.len() as int));
        *fname = strip_quotes(trim(rest));
    }
}

/// The file name a `Content-Disposition` header value suggests: the first
/// `filename*=` parameter whose value decodes, else the value of the last
/// `filename=` parameter, unquoted.
pub fn parse_content_disposition(header_value: &str) -> (r: Option<String>)
    ensures
        opt_view(r) == disposition_name(header_value@),
{
    let h = header_value;
    let n = h.unicode_len();
    let mut part = String::new();
    let mut ret: Option<String> = None;
    let mut fname: Option<String> = None;
    let ghost mut done = Seq::<Seq<char>>::empty();
    let mut i: usize = 0;
    assert(h@.take(0) =~= Seq::<char>::empty());
    assert(split_on(h@.take(0), ';') =~= done.push(part@));
    while i < n
        invariant
            n == h@.len(),
            i <= n,
            split_on(h@.take(i as int), ';') == done.push(part@),
            disposition_fold(done) == (opt_view(ret), opt_view(fname)),
        decreases n - i,
    {
        let c = h.get_char(i);
        assert(h@.take(i + 1).drop_last() =~= h@.take(i as int));
        if c == ';' {
            read_parameter(part.as_str(), &mut ret, &mut fname);
            proof {
                assert(done.push(part@).drop_last() =~= done);
                done = done.push(part@);
            }
            part = String::new();
            assert(split_on(h@.take(i + 1), ';') =~= done.push(part@));
        } else {
            push_char(&mut part, c);
            assert(split_on(h@.take(i + 1), ';') =~= done.push(part@));
        }
        i += 1;
    }
    read_parameter(part.as_str(), &mut ret, &mut fname);
    assert(h@.take(n as int) =~= h@);
    assert(done.push(part@).drop_last() =~= done);
    if ret.is_some() {
        ret
    } else {
        fname
    }
}

/// Index of the first white space at or after `i`, or the length if none.
pub open spec fn token_end(s: Seq<char>, i: nat) -> nat
    decreases s.len() - i,
{
    if i >= s.len() {
        s.len()
    } else if is_white_space(s[i as int]) {
        i
    } else {
        token_end(s, i + 1)
    }
}

/// `bytes`, in any mix of ASCII case.
pub open spec fn is_bytes_unit(u: Seq<char>) -> bool {
    u.len() == 5 && forall|i: int| 0 <= i < 5 ==> u[i] == #[trigger] "bytes"@[i] || u[i] == "BYTES"@[i]
}

/// Value of a string of decimal digits.
pub open spec fn decimal_value(d: Seq<char>) -> nat
    decreases d.len(),
{
    if d.len() == 0 {
        0
    } else {
        decimal_value(d.drop_last()) * 10 + (d.last() as u32 - '0' as u32) as nat
    }
}

/// The unsigned 64-bit integer a text spells: an optional `+`, then one or
/// more decimal digits, with a value in range.
pub open spec fn parsed_u64(t: Seq<char>) -> Option<u64> {
    let d = if t.len() > 0 && t[0] == '+' {
        t.skip(1)
    } else {
        t
    };
    if d.len() > 0 && (forall|i: int| 0 <= i < d.len() ==> '0' <= #[trigger] d[i] <= '9')
        && decimal_value(d) <= u64::MAX {
        Some(decimal_value(d) as u64)
    } else {
        None
    }
}

/// Relies on `u64::from_str` (through `str::parse`): an optional `+`
/// followed by decimal digits, and a value in range.
#[verifier::external_body]
fn parse_u64(t: &str) -> (r: Option<u64>)
    ensures
        r == parsed_u64(t@),
{
    t.parse::<u64>().ok()
}

/// The complete length in a `Content-Range` value `bytes <range>/<total>`:
/// the unit is `bytes` in any ASCII case, and a total of `*` is unknown.
pub open spec fn content_range_total(h: Seq<char>) -> Option<u64> {
    let a = skip_white(h, 0);
    let b = token_end(h, a);
    let c = skip_white(h, b);
    let d = token_end(h, c);
    let range = h.subrange(c as int, d as int);
    let s1 = find_from(range, '/', 0);
    let s2 = find_from(range, '/', s1 + 1);
    let total = range.subrange((s1 + 1) as int, s2 as int);
    if a >= h.len() || !is_bytes_unit(h.subrange(a as int, b as int)) || c >= h.len() || s1
        >= range.len() || total == "*"@ {
        None
    } else {
        parsed_u64(total)
    }
}

fn skip_white_at(s: &str, from: usize) -> (r: usize)
    ensures
        r == skip_white(s@, from as nat),
        r <= s@.len(),
        from <= s@.len() ==> from <= r,
{
    let n = s.unicode_len();
    let mut i = from;
    while i < n
        invariant
            n == s@.len(),
            from <= i,
            skip_white(s@, from as nat) == skip_white(s@, i as nat),
        decreases n - i,
    {
        if !is_space(s.get_char(i)) {
            return i;
        }
        i += 1;
    }
    n
}

fn token_end_at(s: &str, from: usize) -> (r: usize)
    ensures
        r == token_end(s@, from as nat),
        r <= s@.len(),
        from <= s@.len() ==> from <= r,
{
    let n = s.unicode_len();
    let mut i = from;
    while i < n
        invariant
            n == s@.len(),
            from <= i,
            token_end(s@, from as nat) == token_end(s@, i as nat),
        decreases n - i,
    {
        if is_space(s.get_char(i)) {
            return i;
        }
        i += 1;
    }
    n
}

fn is_bytes_text(u: &str) -> (r: bool)
    ensures
        r == is_bytes_unit(u@),
{
    proof {
        reveal_strlit("bytes");
        reveal_strlit("BYTES");
    }
    if u.unicode_len() != 5 {
        return false;
    }
    let lower = "bytes";
    let upper = "BYTES";
    let mut i: usize = 0;
    while i < 5
        invariant
            u@.len() == 5,
            lower@ == "bytes"@,
            upper@ == "BYTES"@,
            lower@.len() == 5,
            upper@.len() == 5,
            i <= 5,
            forall|j: int| 0 <= j < i ==> u@[j] == #[trigger] "bytes"@[j] || u@[j] == "BYTES"@[j],
        decreases 5 - i,
    {
        let c = u.get_char(i);
        if c != lower.get_char(i) && c != upper.get_char(i) {
            return false;
        }
        i += 1;
    }
    true
}

/// The complete length a `Content-Range` value states, as in
/// `bytes 0-0/1234`; none for another unit or an unknown (`*`) total.
pub fn parse_content_range(header: &str) -> (r: Option<u64>)
    ensures
        r == content_range_total(header@),
{
    let n = header.unicode_len();
    let a = skip_white_at(header, 0);
    if a >= n {
        return None;
    }
    let b = token_end_at(header, a);
    if !is_bytes_text(header.substring_char(a, b)) {
        return None;
    }
    let c = skip_white_at(header, b);
    if c >= n {
        return None;
    }
    let d = token_end_at(header, c);
    let range = header.substring_char(c, d);
    let m = range.unicode_len();
    let s1 = find_char(range, '/', 0);
    if s1 >= m {
        return None;
    }
    let s2 = find_char(range, '/', s1 + 1);
    let total = range.substring_char(s1 + 1, s2);
    proof {
        reveal_strlit("*");
    }
    if total.unicode_len() == 1 && total.get_char(0) == '*' {
        assert(total@ =~= "*"@);
        return None;
    }
    assert(total@ != "*"@ ==> !(total@ =~= "*"@));
    parse_u64(total)
}

} // verus!
