//! Piece-length choice and file-name sanitizing.
use vstd::prelude::*;
use vstd::string::*;

verus! {

pub const KIB: u64 = 1024;

pub const MIB: u64 = 1024 * 1024;

pub const GIB: u64 = 1024 * 1024 * 1024;

/// The v1 piece length for content of `size` bytes: it grows with the
/// size, from 256 KiB up to 8 MiB, so that the piece count stays modest.
pub open spec fn piece_length_for(size: nat) -> nat {
    if size <= 128 * MIB {
        256 * KIB as nat
    } else if size <= GIB {
        512 * KIB as nat
    } else if size <= 4 * GIB {
        MIB as nat
    } else if size <= 16 * GIB {
        2 * MIB as nat
    } else if size <= 64 * GIB {
        4 * MIB as nat
    } else {
        8 * MIB as nat
    }
}

/// Chooses the v1 piece length for content of `size` bytes.
pub fn choose_piece_length(size: u64) -> (r: usize)
    ensures
        r == piece_length_for(size as nat),
        r % 16384 == 0,
        r > 0,
{
    let length_bytes: u64 = if size <= 128 * MIB {
        256 * KIB
    } else if size <= GIB {
        512 * KIB
    } else if size <= 4 * GIB {
        MIB
    } else if size <= 16 * GIB {
        2 * MIB
    } else if size <= 64 * GIB {
        4 * MIB
    } else {
        8 * MIB
    };
    length_bytes as usize
}

/// Characters kept as they are in a file name.
pub open spec fn is_safe_char(c: char) -> bool {
    ('a' <= c && c <= 'z') || ('A' <= c && c <= 'Z') || ('0' <= c && c <= '9') || c == '.'
        || c == '_' || c == '-'
}

/// One step of sanitizing: leading dots are dropped, safe characters kept,
/// every other character becomes `_`.
pub open spec fn sanitize_step(acc: Seq<char>, c: char) -> Seq<char> {
    if c == '.' && (acc.len() == 0 || acc == seq!['.']) {
        acc
    } else if is_safe_char(c) {
        acc.push(c)
    } else {
        acc.push('_')
    }
}

/// Sanitizing of a character sequence, left to right.
pub open spec fn sanitize_chars(s: Seq<char>) -> Seq<char>
    decreases s.len(),
{
    if s.len() == 0 {
        Seq::empty()
    } else {
        sanitize_step(sanitize_chars(s.drop_last()), s.last())
    }
}

/// The Unicode `White_Space` characters.
pub open spec fn is_white_space(c: char) -> bool {
    ('\u{9}' <= c && c <= '\u{d}') || c == ' ' || c == '\u{85}' || c == '\u{a0}' || c
        == '\u{1680}' || ('\u{2000}' <= c && c <= '\u{200a}') || c == '\u{2028}' || c
        == '\u{2029}' || c == '\u{202f}' || c == '\u{205f}' || c == '\u{3000}'
}

/// Index of the first character at or after `i` that is not white space,
/// or the length if none.
pub open spec fn skip_white(s: Seq<char>, i: nat) -> nat
    decreases s.len() - i,
{
    if i >= s.len() {
        s.len()
    } else if !is_white_space(s[i as int]) {
        i
    } else {
        skip_white(s, i + 1)
    }
}

/// `s` without trailing white space.
pub open spec fn trim_end(s: Seq<char>) -> Seq<char>
    decreases s.len(),
{
    if s.len() > 0 && is_white_space(s.last()) {
        trim_end(s.drop_last())
    } else {
        s
    }
}

/// `s` without its leading and trailing white space.
pub open spec fn trimmed(s: Seq<char>) -> Seq<char> {
    trim_end(s.skip(skip_white(s, 0) as int))
}

/// Relies on `str::trim`: the text without leading and trailing
/// characters of the Unicode `White_Space` property.
#[verifier::external_body]
pub(crate) fn trim(s: &str) -> (r: &str)
    ensures
        r@ == trimmed(s@),
{
    s.trim()
}

/// Relies on `char::is_whitespace`: membership in the Unicode
/// `White_Space` property.
#[verifier::external_body]
pub(crate) fn is_space(c: char) -> (r: bool)
    ensures
        r == is_white_space(c),
{
    c.is_whitespace()
}

/// Relies on `String::push`: appends one character.
#[verifier::external_body]
pub(crate) fn push_char(s: &mut String, c: char)
    ensures
        final(s)@ == old(s)@.push(c),
{
    s.push(c)
}

/// Relies on `String::push_str`: appends the text.
#[verifier::external_body]
pub(crate) fn push_str(s: &mut String, t: &str)
    ensures
        final(s)@ == old(s)@ + t@,
{
    s.push_str(t)
}

/// The sanitized form of a file name.
pub open spec fn sanitized(input: Seq<char>) -> Seq<char> {
    let r = sanitize_chars(trimmed(input));
    if r.len() == 0 {
        "download"@
    } else {
        r
    }
}

/// Makes a suggested file name safe to use on disk: surrounding white
/// space is trimmed, leading dots are dropped, and every character other
/// than ASCII letters, digits, `.`, `_` and `-` becomes `_`. An empty result
/// becomes `download`.
pub fn sanitize_filename(input: &str) -> (r: String)
    ensures
        r@ == sanitized(input@),
{
    let candidate = trim(input);
    let n = candidate.unicode_len();
    let mut result = String::new();
    let mut i: usize = 0;
    while i < n
        invariant
            n == candidate@.len(),
            i <= n,
            result@ == sanitize_chars(candidate@.take(i as int)),
        decreases n - i,
    {
        let ch = candidate.get_char(i);
        let len = result.as_str().unicode_len();
        let skip = ch == '.' && (len == 0 || (len == 1 && result.as_str().get_char(0) == '.'));
        proof {
            let acc = result@;
            if len == 1 && acc[0] == '.' {
                assert(acc =~= seq!['.']);
            }
            if acc =~= seq!['.'] {
                assert(acc[0] == '.');
            }
        }
        if skip {
        } else if ('a' <= ch && ch <= 'z') || ('A' <= ch && ch <= 'Z') || ('0' <= ch && ch <= '9')
            || ch == '.' || ch == '_' || ch == '-' {
            push_char(&mut result, ch);
        } else {
            push_char(&mut result, '_');
        }
        assert(candidate@.take(i + 1).drop_last() =~= candidate@.take(i as int));
        i += 1;
    }
    assert(candidate@.take(n as int) =~= candidate@);
    if result.as_str().unicode_len() == 0 {
        "download".to_owned()
    } else {
        result
    }
}

/// The default torrent file name for content named `filename`: its
/// sanitized form with `.torrent` appended.
pub fn torrent_file_name(filename: &str) -> (r: String)
    ensures
        r@ == sanitized(filename@) + ".torrent"@,
{
    let mut name = sanitize_filename(filename);
    push_str(&mut name, ".torrent");
    name
}

} // verus!
