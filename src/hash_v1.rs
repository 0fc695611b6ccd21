//! Streaming v1 piece hashing: SHA-1 over fixed-size pieces.
use crate::digest::{sha1_digest, sha1_of};
use vstd::prelude::*;

verus! {

/// `ceil(n / d)`.
pub open spec fn ceil_div(n: nat, d: nat) -> nat {
    if d == 0 {
        0
    } else {
        ((n + d - 1) / (d as int)) as nat
    }
}

/// The v1 `pieces` string of `data`: the SHA-1 digests of its consecutive
/// `piece_length`-byte segments, concatenated in order. The last segment may
/// be shorter; empty data has no pieces.
pub open spec fn v1_pieces(data: Seq<u8>, piece_length: nat) -> Seq<u8>
    decreases data.len(),
{
    if data.len() == 0 || piece_length == 0 {
        Seq::empty()
    } else if data.len() <= piece_length {
        sha1_of(data)@
    } else {
        sha1_of(data.take(piece_length as int))@ + v1_pieces(
            data.skip(piece_length as int),
            piece_length,
        )
    }
}

proof fn lemma_multiple_step(n: int, d: int)
    requires
        d > 0,
        n > 0,
        n % d == 0,
    ensures
        n >= d,
        (n - d) % d == 0,
{
    vstd::arithmetic::div_mod::lemma_fundamental_div_mod(n, d);
    vstd::arithmetic::div_mod::lemma_mod_sub_multiples_vanish(n, d);
    assert(n / d >= 1) by (nonlinear_arith)
        requires
            n == d * (n / d),
            n > 0,
            d > 0,
    ;
    assert(d * (n / d) >= d) by (nonlinear_arith)
        requires
            n / d >= 1,
            d > 0,
    ;
}

/// Appending one piece (at a piece boundary) appends its digest.
proof fn lemma_v1_pieces_append(h: Seq<u8>, c: Seq<u8>, piece_length: nat)
    requires
        piece_length > 0,
        h.len() % piece_length == 0,
        0 < c.len() <= piece_length,
    ensures
        v1_pieces(h + c, piece_length) == v1_pieces(h, piece_length) + sha1_of(c)@,
    decreases h.len(),
{
    let p = piece_length as int;
    if h.len() == 0 {
        assert(h + c =~= c);
        assert(v1_pieces(h, piece_length) =~= Seq::<u8>::empty());
        assert(Seq::<u8>::empty() + sha1_of(c)@ =~= sha1_of(c)@);
    } else {
        lemma_multiple_step(h.len() as int, p);
        assert((h + c).take(p) =~= h.take(p));
        assert((h + c).skip(p) =~= h.skip(p) + c);
        lemma_v1_pieces_append(h.skip(p), c, piece_length);
        if h.len() == p {
            assert(h.take(p) =~= h);
            assert(h.skip(p) =~= Seq::<u8>::empty());
            assert(h.skip(p) + c =~= c);
        } else {
            assert(v1_pieces(h, piece_length) == sha1_of(h.take(p))@ + v1_pieces(
                h.skip(p),
                piece_length,
            ));
            assert(v1_pieces(h + c, piece_length) =~= v1_pieces(h, piece_length) + sha1_of(c)@);
        }
    }
}

/// For all data, the `pieces` string holds one 20-byte digest per piece:
/// `ceil(length / piece_length)` of them, and none for empty data.
pub proof fn lemma_v1_piece_count(data: Seq<u8>, piece_length: nat)
    requires
        piece_length > 0,
    ensures
        v1_pieces(data, piece_length).len() == 20 * ceil_div(data.len(), piece_length),
        v1_pieces(data, piece_length).len() % 20 == 0,
        v1_pieces(data, piece_length).len() / 20 == ceil_div(data.len(), piece_length),
        data.len() == 0 ==> v1_pieces(data, piece_length).len() == 0,
    decreases data.len(),
{
    let p = piece_length as int;
    let n = data.len() as int;
    if n == 0 {
        assert((n + p - 1) / p == 0) by (nonlinear_arith)
            requires
                n == 0,
                p > 0,
        ;
    } else if n <= p {
        assert((n + p - 1) / p == 1) by (nonlinear_arith)
            requires
                0 < n <= p,
        ;
    } else {
        lemma_v1_piece_count(data.skip(p), piece_length);
        let m = n - p;
        assert(data.skip(p).len() == m);
        vstd::arithmetic::div_mod::lemma_div_plus_one(m + p - 1, p);
        assert((n + p - 1) / p == (m + p - 1) / p + 1) by {
            assert(n + p - 1 == (m + p - 1) + p);
        }
    }
    let k = ceil_div(data.len(), piece_length);
    assert((20 * k) % 20 == 0 && (20 * k) / 20 == k) by (nonlinear_arith);
}

/// Streaming SHA-1 hasher that cuts its input into fixed-size pieces.
///
/// Only the current, unfinished piece is held; finished pieces are kept
/// as their 20-byte digests.
pub struct V1Hasher {
    piece_length: usize,
    current: Vec<u8>,
    pieces: Vec<u8>,
    hashed: Ghost<Seq<u8>>,
}

impl V1Hasher {
    /// The piece length the hasher was made with.
    pub closed spec fn piece_len(&self) -> nat {
        self.piece_length as nat
    }

    /// Every byte absorbed so far, in order.
    pub closed spec fn absorbed(&self) -> Seq<u8> {
        self.hashed@ + self.current@
    }

    pub closed spec fn wf(&self) -> bool {
        &&& self.piece_length > 0
        &&& self.current@.len() < self.piece_length
        &&& self.hashed@.len() % (self.piece_length as nat) == 0
        &&& self.pieces@ == v1_pieces(self.hashed@, self.piece_length as nat)
    }

    pub fn new(piece_length: usize) -> (r: V1Hasher)
        requires
            piece_length > 0,
        ensures
            r.wf(),
            r.piece_len() == piece_length,
            r.absorbed() == Seq::<u8>::empty(),
    {
        let r = V1Hasher {
            piece_length,
            current: Vec::new(),
            pieces: Vec::new(),
            hashed: Ghost(Seq::empty()),
        };
        assert(r.absorbed() =~= Seq::<u8>::empty());
        r
    }

    /// Absorbs `data`, finishing every piece that becomes full.
    pub fn update(&mut self, data: &[u8])
        requires
            old(self).wf(),
        ensures
            final(self).wf(),
            final(self).piece_len() == old(self).piece_len(),
            final(self).absorbed() == old(self).absorbed() + data@,
    {
        let mut i: usize = 0;
        while i < data.len()
            invariant
                self.wf(),
                self.piece_length == old(self).piece_length,
                i <= data.len(),
                self.absorbed() == old(self).absorbed() + data@.take(i as int),
            decreases data.len() - i,
        {
            let ghost before = self.absorbed();
            self.current.push(data[i]);
            assert(self.absorbed() =~= before.push(data@[i as int]));
            if self.current.len() == self.piece_length {
                self.flush_piece();
            }
            i += 1;
            assert(data@.take(i as int) =~= data@.take(i - 1).push(data@[i - 1]));
            assert(self.absorbed() =~= old(self).absorbed() + data@.take(i as int));
        }
        assert(data@.take(i as int) =~= data@);
    }

    /// Consumes the hasher; a non-empty unfinished piece becomes the last one.
    pub fn finalize(self) -> (r: Vec<u8>)
        requires
            self.wf(),
        ensures
            r@ == v1_pieces(self.absorbed(), self.piece_len()),
    {
        let mut s = self;
        if s.current.len() > 0 {
            s.flush_piece();
        } else {
            assert(s.absorbed() =~= s.hashed@);
        }
        s.pieces
    }

    fn flush_piece(&mut self)
        requires
            old(self).piece_length > 0,
            0 < old(self).current@.len() <= old(self).piece_length,
            old(self).hashed@.len() % (old(self).piece_length as nat) == 0,
            old(self).pieces@ == v1_pieces(old(self).hashed@, old(self).piece_length as nat),
        ensures
            final(self).piece_length == old(self).piece_length,
            final(self).current@ == Seq::<u8>::empty(),
            final(self).hashed@ == old(self).absorbed(),
            old(self).current@.len() == old(self).piece_length ==> final(self).hashed@.len() % (
            final(self).piece_length as nat) == 0,
            final(self).pieces@ == v1_pieces(final(self).hashed@, final(self).piece_length as nat),
    {
        let digest = sha1_digest(self.current.as_slice());
        proof {
            lemma_v1_pieces_append(self.hashed@, self.current@, self.piece_length as nat);
            let p = self.piece_length as int;
            let h = self.hashed@.len() as int;
            let c = self.current@.len() as int;
            if c == p {
                vstd::arithmetic::div_mod::lemma_mod_multiples_vanish(1, h, p);
                assert(p * 1 + h == h + c);
            }
        }
        let mut j: usize = 0;
        let ghost start = self.pieces@;
        while j < 20
            invariant
                j <= 20,
                self.pieces@ == start + digest@.take(j as int),
                self.piece_length == old(self).piece_length,
                self.current == old(self).current,
                self.hashed == old(self).hashed,
            decreases 20 - j,
        {
            self.pieces.push(digest[j]);
            j += 1;
            assert(digest@.take(j as int) =~= digest@.take(j - 1).push(digest@[j - 1]));
        }
        assert(digest@.take(20) =~= digest@);
        self.hashed = Ghost(self.hashed@ + self.current@);
        self.current.clear();
    }
}

} // verus!
