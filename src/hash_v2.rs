//! Streaming v2 hashing: SHA-256 over 16 KiB leaves, and the Merkle trees
//! built over them.
use crate::bytes::append_bytes;
use crate::digest::{sha256_digest, sha256_of};
use crate::hash_v1::ceil_div;
use vstd::prelude::*;

verus! {

/// Size of a v2 leaf in bytes.
pub const LEAF_SIZE: usize = 16384;

/// The parent of two sibling nodes: SHA-256 over their concatenation.
pub open spec fn pair_hash(left: [u8; 32], right: [u8; 32]) -> [u8; 32] {
    sha256_of(left@ + right@)
}

/// One level up the tree: adjacent nodes are paired, and a last node
/// without a sibling is paired with itself.
pub open spec fn next_level(level: Seq<[u8; 32]>) -> Seq<[u8; 32]> {
    Seq::new(
        ((level.len() + 1) / 2) as nat,
        |i: int|
            pair_hash(
                level[2 * i],
                if 2 * i + 1 < level.len() {
                    level[2 * i + 1]
                } else {
                    level[2 * i]
                },
            ),
    )
}

/// The root above a non-empty level: a single node is the root itself.
pub open spec fn level_root(level: Seq<[u8; 32]>) -> [u8; 32]
    decreases level.len(),
{
    if level.len() <= 1 {
        level[0]
    } else {
        level_root(next_level(level))
    }
}

/// The Merkle root of an ordered node sequence; the root of no nodes is
/// the SHA-256 of the empty string.
pub open spec fn merkle_root_of(nodes: Seq<[u8; 32]>) -> [u8; 32] {
    if nodes.len() == 0 {
        sha256_of(Seq::empty())
    } else {
        level_root(nodes)
    }
}

/// The per-piece roots, concatenated: consecutive groups of `per` leaves,
/// at most `count` of them, the last group cut short where leaves run out.
pub open spec fn piece_layers_of(leaves: Seq<[u8; 32]>, per: nat, count: nat) -> Seq<u8>
    decreases count,
{
    if count == 0 || leaves.len() == 0 || per == 0 {
        Seq::empty()
    } else {
        let end = if per < leaves.len() {
            per
        } else {
            leaves.len()
        };
        merkle_root_of(leaves.take(end as int))@ + piece_layers_of(
            leaves.skip(end as int),
            per,
            (count - 1) as nat,
        )
    }
}

/// Leaves that one piece of `piece_length` bytes covers.
pub open spec fn leaves_per_piece(piece_length: nat) -> nat {
    ceil_div(piece_length, LEAF_SIZE as nat)
}

/// SHA-256 digests of the consecutive 16 KiB leaves of `data`; the last
/// leaf is hashed at its own length, never padded.
pub open spec fn leaf_digests(data: Seq<u8>) -> Seq<[u8; 32]>
    decreases data.len(),
{
    if data.len() == 0 {
        Seq::empty()
    } else if data.len() <= LEAF_SIZE {
        seq![sha256_of(data)]
    } else {
        seq![sha256_of(data.take(LEAF_SIZE as int))] + leaf_digests(data.skip(LEAF_SIZE as int))
    }
}

/// The leaves the tree is built over: those of the data, or for empty data
/// the one digest of the empty string.
pub open spec fn v2_leaves(data: Seq<u8>) -> Seq<[u8; 32]> {
    if data.len() == 0 {
        seq![sha256_of(Seq::empty())]
    } else {
        leaf_digests(data)
    }
}

/// Number of v1 pieces of a stream of `length` bytes.
pub open spec fn piece_count(length: nat, piece_length: nat) -> nat {
    ceil_div(length, piece_length)
}

/// The `pieces root` of the v2 summary of `data`.
pub open spec fn v2_pieces_root(data: Seq<u8>) -> [u8; 32] {
    merkle_root_of(v2_leaves(data))
}

/// The `piece layers` string of the v2 summary of `data`.
pub open spec fn v2_piece_layers(data: Seq<u8>, piece_length: nat) -> Seq<u8> {
    if data.len() == 0 {
        Seq::empty()
    } else {
        piece_layers_of(
            v2_leaves(data),
            leaves_per_piece(piece_length),
            piece_count(data.len(), piece_length),
        )
    }
}

/// The merkle root is a function of the ordered leaves alone: equal leaf
/// sequences give equal roots, however often it is computed.
pub proof fn lemma_merkle_root_deterministic(a: Seq<[u8; 32]>, b: Seq<[u8; 32]>)
    requires
        a == b,
    ensures
        merkle_root_of(a) == merkle_root_of(b),
{
}

/// The root of a single leaf is that leaf, with no further hashing.
pub proof fn lemma_merkle_root_single(leaf: [u8; 32])
    ensures
        merkle_root_of(seq![leaf]) == leaf,
{
}

/// The root of no leaves is the SHA-256 of the empty string.
pub proof fn lemma_merkle_root_empty()
    ensures
        merkle_root_of(Seq::empty()) == sha256_of(Seq::empty()),
{
}

/// The parent node of `left` and `right`.
pub fn hash_pair(left: &[u8; 32], right: &[u8; 32]) -> (r: [u8; 32])
    ensures
        r == pair_hash(*left, *right),
{
    let mut buf: Vec<u8> = Vec::new();
    append_bytes(&mut buf, left.as_slice());
    append_bytes(&mut buf, right.as_slice());
    sha256_digest(buf.as_slice())
}

/// The Merkle root of `nodes`.
pub fn merkle_root(nodes: &[[u8; 32]]) -> (r: [u8; 32])
    ensures
        r == merkle_root_of(nodes@),
{
    if nodes.len() == 0 {
        let empty: Vec<u8> = Vec::new();
        return sha256_digest(empty.as_slice());
    }
    let mut level: Vec<[u8; 32]> = vstd::slice::slice_to_vec(nodes);
    while level.len() > 1
        invariant
            level@.len() >= 1,
            level_root(level@) == level_root(nodes@),
        decreases level.len(),
    {
        let n = level.len();
        let half = n / 2 + n % 2;
        assert(half == (n + 1) / 2);
        let mut next: Vec<[u8; 32]> = Vec::new();
        let mut i: usize = 0;
        while i < half
            invariant
                n == level@.len(),
                n > 1,
                half == (n + 1) / 2,
                i <= half,
                next@ == next_level(level@).take(i as int),
            decreases half - i,
        {
            let l = level[2 * i];
            let r = if 2 * i + 1 < n {
                level[2 * i + 1]
            } else {
                l
            };
            let h = hash_pair(&l, &r);
            next.push(h);
            i += 1;
            assert(next@ =~= next_level(level@).take(i as int));
        }
        assert(next@ =~= next_level(level@));
        level = next;
    }
    level[0]
}

/// `ceil(n / d)` as the exec code computes it, without overflow.
pub proof fn lemma_ceil_div_parts(n: nat, d: nat)
    requires
        d > 0,
    ensures
        ceil_div(n, d) == n / d + if n % d == 0 {
            0nat
        } else {
            1nat
        },
{
    let q = (n / d) as int;
    let r = (n % d) as int;
    let di = d as int;
    vstd::arithmetic::div_mod::lemma_fundamental_div_mod(n as int, di);
    if r == 0 {
        assert(n + di - 1 == q * di + (di - 1)) by (nonlinear_arith)
            requires
                n == di * q + r,
                r == 0,
        ;
        vstd::arithmetic::div_mod::lemma_fundamental_div_mod_converse(n + di - 1, di, q, di - 1);
    } else {
        assert(n + di - 1 == (q + 1) * di + (r - 1)) by (nonlinear_arith)
            requires
                n == di * q + r,
        ;
        vstd::arithmetic::div_mod::lemma_fundamental_div_mod_converse(
            n + di - 1,
            di,
            q + 1,
            r - 1,
        );
    }
}

/// Appending one leaf (at a leaf boundary) appends its digest.
proof fn lemma_leaf_digests_append(h: Seq<u8>, c: Seq<u8>)
    requires
        h.len() % (LEAF_SIZE as nat) == 0,
        0 < c.len() <= LEAF_SIZE,
    ensures
        leaf_digests(h + c) == leaf_digests(h).push(sha256_of(c)),
    decreases h.len(),
{
    let p = LEAF_SIZE as int;
    if h.len() == 0 {
        assert(h + c =~= c);
        assert(leaf_digests(h).push(sha256_of(c)) =~= seq![sha256_of(c)]);
    } else {
        assert(h.len() >= p && (h.len() - p) % p == 0) by {
            vstd::arithmetic::div_mod::lemma_fundamental_div_mod(h.len() as int, p);
            vstd::arithmetic::div_mod::lemma_mod_sub_multiples_vanish(h.len() as int, p);
        }
        assert((h + c).take(p) =~= h.take(p));
        assert((h + c).skip(p) =~= h.skip(p) + c);
        lemma_leaf_digests_append(h.skip(p), c);
        if h.len() == p {
            assert(h.take(p) =~= h);
            assert(h.skip(p) =~= Seq::<u8>::empty());
            assert(h.skip(p) + c =~= c);
            assert(leaf_digests(h + c) =~= leaf_digests(h).push(sha256_of(c)));
        } else {
            assert(leaf_digests(h + c) =~= leaf_digests(h).push(sha256_of(c)));
        }
    }
}

/// Non-empty data has at least one leaf.
proof fn lemma_leaf_digests_nonempty(data: Seq<u8>)
    ensures
        data.len() > 0 <==> leaf_digests(data).len() > 0,
{
}

/// The concatenated per-piece roots: `piece_count` groups of
/// `ceil(piece_length / 16 KiB)` leaves each, the last group cut short
/// where the leaves run out.
pub fn build_piece_layers(leaves: &[[u8; 32]], piece_length: usize, piece_count: u64) -> (r: Vec<
    u8,
>)
    ensures
        r@ == piece_layers_of(leaves@, leaves_per_piece(piece_length as nat), piece_count as nat),
{
    let ghost per_spec = leaves_per_piece(piece_length as nat);
    if leaves.len() == 0 || piece_length == 0 || piece_count == 0 {
        return Vec::new();
    }
    let per: usize = piece_length / LEAF_SIZE + if piece_length % LEAF_SIZE == 0 {
        0
    } else {
        1
    };
    proof {
        lemma_ceil_div_parts(piece_length as nat, LEAF_SIZE as nat);
    }
    assert(per == per_spec);
    let mut layers: Vec<u8> = Vec::new();
    let mut index: usize = 0;
    let mut g: u64 = 0;
    assert(leaves@.skip(0) =~= leaves@);
    assert(layers@ + piece_layers_of(leaves@, per as nat, piece_count as nat) =~= piece_layers_of(
        leaves@,
        per as nat,
        piece_count as nat,
    ));
    while g < piece_count && index < leaves.len()
        invariant
            per == per_spec,
            per > 0,
            index <= leaves@.len(),
            g <= piece_count,
            layers@ + piece_layers_of(leaves@.skip(index as int), per as nat, (piece_count - g) as nat)
                == piece_layers_of(leaves@, per as nat, piece_count as nat),
        decreases piece_count - g,
    {
        let end: usize = if leaves.len() - index < per {
            leaves.len()
        } else {
            index + per
        };
        let root = merkle_root(&leaves[index..end]);
        let ghost rest = leaves@.skip(index as int);
        let ghost before = layers@;
        append_bytes(&mut layers, root.as_slice());
        proof {
            let k = end - index;
            assert(rest.take(k as int) =~= leaves@.subrange(index as int, end as int));
            assert(rest.skip(k as int) =~= leaves@.skip(end as int));
            assert(piece_layers_of(rest, per as nat, (piece_count - g) as nat) == root@
                + piece_layers_of(rest.skip(k as int), per as nat, (piece_count - g - 1) as nat));
            assert(layers@ + piece_layers_of(
                leaves@.skip(end as int),
                per as nat,
                (piece_count - g - 1) as nat,
            ) =~= before + piece_layers_of(rest, per as nat, (piece_count - g) as nat));
        }
        index = end;
        g += 1;
    }
    assert(piece_layers_of(leaves@.skip(index as int), per as nat, (piece_count - g) as nat)
        =~= Seq::<u8>::empty());
    assert(layers@ + Seq::<u8>::empty() =~= layers@);
    layers
}

/// The result of v2 hashing: the whole-stream root and the per-piece roots.
pub struct V2Summary {
    pub pieces_root: [u8; 32],
    pub piece_layers: Vec<u8>,
}

/// Streaming SHA-256 hasher over 16 KiB leaves.
///
/// Only the current, unfinished leaf is held as bytes; finished leaves are
/// appended, as digests, to a sequential store that is read back once, in
/// order, when the hasher is finalized.
pub struct V2Hasher {
    buffer: Vec<u8>,
    leaves: Vec<[u8; 32]>,
    total_bytes: u64,
    hashed: Ghost<Seq<u8>>,
}

impl V2Hasher {
    /// Every byte absorbed so far, in order.
    pub closed spec fn absorbed(&self) -> Seq<u8> {
        self.hashed@ + self.buffer@
    }

    pub closed spec fn wf(&self) -> bool {
        &&& self.buffer@.len() < LEAF_SIZE
        &&& self.hashed@.len() % (LEAF_SIZE as nat) == 0
        &&& self.leaves@ == leaf_digests(self.hashed@)
        &&& self.total_bytes == self.hashed@.len() + self.buffer@.len()
    }

    pub fn new() -> (r: V2Hasher)
        ensures
            r.wf(),
            r.absorbed() == Seq::<u8>::empty(),
    {
        let r = V2Hasher {
            buffer: Vec::new(),
            leaves: Vec::new(),
            total_bytes: 0,
            hashed: Ghost(Seq::empty()),
        };
        assert(r.absorbed() =~= Seq::<u8>::empty());
        r
    }

    /// Number of bytes absorbed so far.
    pub fn total_bytes(&self) -> (r: u64)
        requires
            self.wf(),
        ensures
            r == self.absorbed().len(),
    {
        self.total_bytes
    }

    /// Number of full leaves hashed so far; a partial leaf is not counted.
    pub fn leaf_count(&self) -> (r: usize)
        requires
            self.wf(),
        ensures
            r == self.absorbed().len() / (LEAF_SIZE as nat),
            r == leaf_digests(self.absorbed()).len() || self.absorbed().len() % (LEAF_SIZE as nat)
                != 0,
    {
        proof {
            let h = self.hashed@.len() as int;
            let b = self.buffer@.len() as int;
            let p = LEAF_SIZE as int;
            lemma_leaf_digests_len(self.hashed@);
            vstd::arithmetic::div_mod::lemma_fundamental_div_mod(h, p);
            vstd::arithmetic::div_mod::lemma_fundamental_div_mod_converse(h + b, p, h / p, b);
            if b == 0 {
                assert(self.absorbed() =~= self.hashed@);
            }
        }
        self.leaves.len()
    }

    /// Absorbs `data`, hashing every leaf that becomes full.
    pub fn update(&mut self, data: &[u8])
        requires
            old(self).wf(),
            old(self).absorbed().len() + data@.len() <= u64::MAX,
        ensures
            final(self).wf(),
            final(self).absorbed() == old(self).absorbed() + data@,
    {
        let mut i: usize = 0;
        while i < data.len()
            invariant
                self.wf(),
                i <= data.len(),
                self.absorbed() == old(self).absorbed() + data@.take(i as int),
                old(self).absorbed().len() + data@.len() <= u64::MAX,
            decreases data.len() - i,
        {
            let ghost before = self.absorbed();
            assert(before.len() == old(self).absorbed().len() + i);
            self.buffer.push(data[i]);
            self.total_bytes = self.total_bytes + 1;
            assert(self.absorbed() =~= before.push(data@[i as int]));
            if self.buffer.len() == LEAF_SIZE {
                self.flush_leaf();
                proof {
                    vstd::arithmetic::div_mod::lemma_mod_multiples_vanish(
                        1,
                        before.len() - LEAF_SIZE + 1,
                        LEAF_SIZE as int,
                    );
                }
            }
            i += 1;
            assert(data@.take(i as int) =~= data@.take(i - 1).push(data@[i - 1]));
            assert(self.absorbed() =~= old(self).absorbed() + data@.take(i as int));
        }
        assert(data@.take(i as int) =~= data@);
    }

    /// Consumes the hasher and builds the v2 summary for a v1 piece length.
    pub fn finalize(self, piece_length: usize) -> (r: V2Summary)
        requires
            self.wf(),
            piece_length > 0,
        ensures
            r.pieces_root == v2_pieces_root(self.absorbed()),
            r.piece_layers@ == v2_piece_layers(self.absorbed(), piece_length as nat),
    {
        let ghost data = self.absorbed();
        let mut s = self;
        if s.buffer.len() > 0 {
            s.flush_leaf();
        } else {
            assert(s.absorbed() =~= s.hashed@);
        }
        assert(s.leaves@ == leaf_digests(data));
        proof {
            lemma_leaf_digests_nonempty(data);
        }
        if s.leaves.len() == 0 {
            let empty: Vec<u8> = Vec::new();
            let d = sha256_digest(empty.as_slice());
            s.leaves.push(d);
        }
        assert(s.leaves@ =~= v2_leaves(data));
        let pl = piece_length as u64;
        let q = s.total_bytes / pl;
        let count: u64 = if s.total_bytes == 0 {
            0
        } else if s.total_bytes % pl == 0 {
            q
        } else {
            proof {
                let t = s.total_bytes as int;
                let p = pl as int;
                vstd::arithmetic::div_mod::lemma_fundamental_div_mod(t, p);
                assert(q < t) by (nonlinear_arith)
                    requires
                        t == p * q + t % p,
                        t % p > 0,
                        p >= 1,
                        q >= 0,
                ;
            }
            q + 1
        };
        proof {
            lemma_ceil_div_parts(data.len(), piece_length as nat);
        }
        let piece_layers = if count == 0 {
            Vec::new()
        } else {
            build_piece_layers(s.leaves.as_slice(), piece_length, count)
        };
        let pieces_root = merkle_root(s.leaves.as_slice());
        V2Summary { pieces_root, piece_layers }
    }

    fn flush_leaf(&mut self)
        requires
            0 < old(self).buffer@.len() <= LEAF_SIZE,
            old(self).hashed@.len() % (LEAF_SIZE as nat) == 0,
            old(self).leaves@ == leaf_digests(old(self).hashed@),
        ensures
            final(self).buffer@ == Seq::<u8>::empty(),
            final(self).hashed@ == old(self).absorbed(),
            final(self).total_bytes == old(self).total_bytes,
            final(self).leaves@ == leaf_digests(final(self).hashed@),
    {
        let digest = sha256_digest(self.buffer.as_slice());
        proof {
            lemma_leaf_digests_append(self.hashed@, self.buffer@);
        }
        self.leaves.push(digest);
        self.hashed = Ghost(self.hashed@ + self.buffer@);
        self.buffer.clear();
    }
}

/// One digest per started leaf: `ceil(length / 16 KiB)` of them.
pub proof fn lemma_leaf_digests_len(data: Seq<u8>)
    ensures
        leaf_digests(data).len() == ceil_div(data.len(), LEAF_SIZE as nat),
    decreases data.len(),
{
    let p = LEAF_SIZE as int;
    let n = data.len() as int;
    if n == 0 {
    } else if n <= p {
        assert((n + p - 1) / p == 1) by (nonlinear_arith)
            requires
                0 < n <= p,
        ;
    } else {
        lemma_leaf_digests_len(data.skip(p));
        let m = n - p;
        vstd::arithmetic::div_mod::lemma_div_plus_one(m + p - 1, p);
        assert(n + p - 1 == (m + p - 1) + p);
    }
}

/// A stream of exactly `n` full leaves has `n` leaf digests, the `i`-th
/// over bytes `[i * 16 KiB, (i + 1) * 16 KiB)`: no partial leaf.
pub proof fn lemma_full_leaves(data: Seq<u8>, n: nat)
    requires
        data.len() == n * LEAF_SIZE,
    ensures
        leaf_digests(data).len() == n,
        forall|i: int|
            0 <= i < n ==> #[trigger] leaf_digests(data)[i] == sha256_of(
                data.subrange(i * LEAF_SIZE, (i + 1) * LEAF_SIZE),
            ),
    decreases n,
{
    let p = LEAF_SIZE as int;
    if n == 0 {
    } else if n == 1 {
        assert(data.subrange(0, p) =~= data);
    } else {
        let rest = data.skip(p);
        lemma_full_leaves(rest, (n - 1) as nat);
        assert forall|i: int| 0 <= i < n implies #[trigger] leaf_digests(data)[i] == sha256_of(
            data.subrange(i * p, (i + 1) * p),
        ) by {
            if i == 0 {
                assert(data.take(p) =~= data.subrange(0, p));
            } else {
                assert(leaf_digests(data)[i] == leaf_digests(rest)[i - 1]);
                assert(rest.subrange((i - 1) * p, i * p) =~= data.subrange(i * p, (i + 1) * p));
            }
        }
    }
}

/// `ceil(n / d)` is the least `q` with `q * d >= n`.
proof fn lemma_ceil_bounds(n: nat, d: nat)
    requires
        d > 0,
    ensures
        ceil_div(n, d) * d >= n,
        n > 0 ==> (ceil_div(n, d) - 1) * d < n,
{
    lemma_ceil_div_parts(n, d);
    let q = (n / d) as int;
    let r = (n % d) as int;
    vstd::arithmetic::div_mod::lemma_fundamental_div_mod(n as int, d as int);
    let c = ceil_div(n, d) as int;
    if r == 0 {
        assert(c * d >= n) by (nonlinear_arith)
            requires
                c == q,
                n == d * q + r,
                r == 0,
        ;
        if n > 0 {
            assert((c - 1) * d < n) by (nonlinear_arith)
                requires
                    c == q,
                    n == d * q,
                    d > 0,
            ;
        }
    } else {
        assert(c * d >= n) by (nonlinear_arith)
            requires
                c == q + 1,
                n == d * q + r,
                r < d,
        ;
        assert((c - 1) * d < n) by (nonlinear_arith)
            requires
                c == q + 1,
                n == d * q + r,
                r > 0,
        ;
    }
}

/// Each group of `per` leaves gives one 32-byte root, for as many groups
/// as the leaves fill and `count` allows.
proof fn lemma_piece_layers_len(leaves: Seq<[u8; 32]>, per: nat, count: nat)
    requires
        per > 0,
    ensures
        piece_layers_of(leaves, per, count).len() == 32 * vstd::math::min(
            count as int,
            ceil_div(leaves.len(), per) as int,
        ),
    decreases count,
{
    let n = leaves.len() as int;
    let p = per as int;
    if count == 0 || n == 0 {
        if n == 0 {
            assert((n + p - 1) / p == 0) by (nonlinear_arith)
                requires
                    n == 0,
                    p > 0,
            ;
        } else {
            assert((n + p - 1) / p >= 0) by (nonlinear_arith)
                requires
                    n > 0,
                    p > 0,
            ;
        }
    } else if n <= p {
        lemma_piece_layers_len(leaves.skip(n), per, (count - 1) as nat);
        assert(leaves.skip(n).len() == 0);
        assert((n + p - 1) / p == 1) by (nonlinear_arith)
            requires
                0 < n <= p,
        ;
    } else {
        lemma_piece_layers_len(leaves.skip(p), per, (count - 1) as nat);
        let m = n - p;
        vstd::arithmetic::div_mod::lemma_div_plus_one(m + p - 1, p);
        assert(n + p - 1 == (m + p - 1) + p);
    }
}

/// When the piece length is a whole number of leaves, the piece layers
/// hold one 32-byte root per v1 piece: `32 * ceil(length / piece_length)`
/// bytes for non-empty data, none for empty data.
pub proof fn lemma_piece_layers_count(data: Seq<u8>, piece_length: nat)
    requires
        piece_length > 0,
        piece_length % (LEAF_SIZE as nat) == 0,
    ensures
        data.len() > 0 ==> v2_piece_layers(data, piece_length).len() == 32 * ceil_div(
            data.len(),
            piece_length,
        ),
        data.len() == 0 ==> v2_piece_layers(data, piece_length).len() == 0,
{
    if data.len() > 0 {
        let l = LEAF_SIZE as int;
        let n = data.len() as int;
        let pl = piece_length as int;
        lemma_ceil_div_parts(piece_length, LEAF_SIZE as nat);
        let per = leaves_per_piece(piece_length) as int;
        vstd::arithmetic::div_mod::lemma_fundamental_div_mod(pl, l);
        assert(per == pl / l);
        assert(pl == per * l);
        assert(per > 0) by (nonlinear_arith)
            requires
                pl == per * l,
                pl > 0,
                l > 0,
        ;
        lemma_leaf_digests_len(data);
        let m = ceil_div(data.len(), LEAF_SIZE as nat) as int;
        let c = ceil_div(data.len(), piece_length) as int;
        lemma_ceil_bounds(data.len(), LEAF_SIZE as nat);
        lemma_ceil_bounds(data.len(), piece_length);
        lemma_ceil_bounds(m as nat, per as nat);
        let g = ceil_div(m as nat, per as nat) as int;
        // (c - 1) * per * l < n <= m * l, so (c - 1) * per < m <= g * per
        assert((c - 1) * per < m) by (nonlinear_arith)
            requires
                (c - 1) * pl < n,
                m * l >= n,
                pl == per * l,
                l > 0,
        ;
        assert(c - 1 < g) by (nonlinear_arith)
            requires
                (c - 1) * per < m,
                g * per >= m,
                per > 0,
        ;
        lemma_piece_layers_len(v2_leaves(data), per as nat, c as nat);
    }
}

} // verus!
