//! Small byte-buffer helpers shared by the encoders.
use vstd::prelude::*;
use vstd::string::*;

verus! {

/// The bytes of a text made of ASCII characters, one byte per character.
pub open spec fn ascii_bytes(s: Seq<char>) -> Seq<u8> {
    Seq::new(s.len(), |i: int| s[i] as u8)
}

/// Appends `b` to `out`.
pub fn append_bytes(out: &mut Vec<u8>, b: &[u8])
    ensures
        final(out)@ == old(out)@ + b@,
{
    let mut i: usize = 0;
    while i < b.len()
        invariant
            i <= b.len(),
            out@ == old(out)@ + b@.take(i as int),
        decreases b.len() - i,
    {
        out.push(b[i]);
        i += 1;
        assert(b@.take(i as int) =~= b@.take(i - 1).push(b@[i - 1]));
    }
    assert(b@.take(i as int) =~= b@);
}

/// Appends the characters of `k`, one byte each.
pub fn append_ascii(out: &mut Vec<u8>, k: &str)
    ensures
        final(out)@ == old(out)@ + ascii_bytes(k@),
{
    let n = k.unicode_len();
    let mut i: usize = 0;
    while i < n
        invariant
            n == k@.len(),
            i <= n,
            out@ == old(out)@ + ascii_bytes(k@).take(i as int),
        decreases n - i,
    {
        let c = k.get_char(i);
        out.push(c as u8);
        i += 1;
        assert(ascii_bytes(k@).take(i as int) =~= ascii_bytes(k@).take(i - 1).push(c as u8));
    }
    assert(ascii_bytes(k@).take(n as int) =~= ascii_bytes(k@));
}

} // verus!
