//! The incremental belief-propagation decoder.
use vstd::prelude::*;
use std::collections::{HashMap, HashSet};
use crate::oracle::{packet_sources, distinct_below, sources_spec};
use crate::wire::{read_u32_be, be_u32_at, HEADER_LEN};
use crate::encoder::xor_at;

verus! {

broadcast use {vstd::std_specs::hash::group_hash_axioms, vstd::seq_lib::group_filter_ensures};

/// An equation `XOR_{i in unknown} blocks[i] == data` over still-unknown blocks.
struct Pending {
    unknown: Vec<usize>,
    data: Vec<u8>,
}

/// Number of recovered slots.
pub open spec fn count_known(s: Seq<Option<Seq<u8>>>) -> nat
    decreases s.len(),
{
    if s.len() == 0 {
        0
    } else {
        count_known(s.drop_last()) + if s.last() is Some {
            1nat
        } else {
            0nat
        }
    }
}

/// The concatenation of the recovered slots, in index order.
pub open spec fn joined(s: Seq<Option<Seq<u8>>>) -> Seq<u8>
    decreases s.len(),
{
    if s.len() == 0 {
        Seq::empty()
    } else {
        joined(s.drop_last()) + match s.last() {
            Some(b) => b,
            None => Seq::empty(),
        }
    }
}

pub proof fn lemma_count_bounds(s: Seq<Option<Seq<u8>>>)
    ensures
        count_known(s) <= s.len(),
        count_known(s) == s.len() <==> forall|i: int| 0 <= i < s.len() ==> (#[trigger] s[i]) is Some,
    decreases s.len(),
{
    if s.len() > 0 {
        lemma_count_bounds(s.drop_last());
        if count_known(s) == s.len() {
            assert forall|i: int| 0 <= i < s.len() implies (#[trigger] s[i]) is Some by {
                if i < s.len() - 1 {
                    assert(s.drop_last()[i] == s[i]);
                }
            }
        }
        if forall|i: int| 0 <= i < s.len() ==> (#[trigger] s[i]) is Some {
            assert forall|i: int| 0 <= i < s.drop_last().len() implies (#[trigger] s.drop_last()[i]) is Some by {
                assert(s.drop_last()[i] == s[i]);
            }
        }
    }
}

pub proof fn lemma_count_fill(s: Seq<Option<Seq<u8>>>, i: int, v: Seq<u8>)
    requires
        0 <= i < s.len(),
        s[i] is None,
    ensures
        count_known(s.update(i, Some(v))) == count_known(s) + 1,
    decreases s.len(),
{
    let t = s.update(i, Some(v));
    if i < s.len() - 1 {
        assert(t.drop_last() =~= s.drop_last().update(i, Some(v)));
        lemma_count_fill(s.drop_last(), i, v);
    } else {
        assert(t.drop_last() =~= s.drop_last());
    }
}

/// Byte `j` of the XOR of the blocks `truth[s[0]], truth[s[1]], ...`.
pub open spec fn xor_seq(truth: Seq<Seq<u8>>, s: Seq<usize>, j: int) -> u8
    decreases s.len(),
{
    if s.len() == 0 {
        0
    } else {
        xor_seq(truth, s.drop_last(), j) ^ truth[s.last() as int][j]
    }
}

proof fn lemma_xor_laws(a: u8, b: u8, c: u8)
    ensures
        (a ^ b) ^ c == a ^ (b ^ c),
        a ^ b == b ^ a,
        a ^ a == 0,
        a ^ 0 == a,
        0 ^ a == a,
{
    assert((a ^ b) ^ c == a ^ (b ^ c)) by (bit_vector);
    assert(a ^ b == b ^ a) by (bit_vector);
    assert(a ^ a == 0) by (bit_vector);
    assert(a ^ 0 == a) by (bit_vector);
    assert(0 ^ a == a) by (bit_vector);
}

/// Taking `x` out of a repetition-free list takes its block out of the XOR.
proof fn lemma_xor_remove(truth: Seq<Seq<u8>>, s: Seq<usize>, x: usize, j: int)
    requires
        s.no_duplicates(),
        s.contains(x),
    ensures
        xor_seq(truth, s, j) == xor_seq(truth, s.filter(|y: usize| y != x), j) ^ truth[x as int][j],
    decreases s.len(),
{
    reveal(Seq::filter);
    let d = s.drop_last();
    let l = s.last();
    assert(s.filter(|y: usize| y != x) == if l != x {
        d.filter(|y: usize| y != x).push(l)
    } else {
        d.filter(|y: usize| y != x)
    });
    if l == x {
        if d.contains(x) {
            let w = choose|w: int| 0 <= w < d.len() && d[w] == x;
            assert(s[w] == s[s.len() - 1]);
        }
        lemma_filter_absent(d, x);
    } else {
        let w = choose|w: int| 0 <= w < s.len() && s[w] == x;
        assert(d[w] == x);
        assert forall|a: int, b: int| 0 <= a < b < d.len() implies d[a] != d[b] by {
            assert(s[a] != s[b]);
        }
        lemma_xor_remove(truth, d, x, j);
        let f = d.filter(|y: usize| y != x);
        assert(f.push(l).drop_last() =~= f);
        lemma_xor_laws(xor_seq(truth, f, j), truth[x as int][j], truth[l as int][j]);
        lemma_xor_laws(xor_seq(truth, f, j), truth[l as int][j], truth[x as int][j]);
        lemma_xor_laws(truth[x as int][j], truth[l as int][j], 0);
    }
}

proof fn lemma_filter_absent(s: Seq<usize>, x: usize)
    requires
        !s.contains(x),
    ensures
        s.filter(|y: usize| y != x) == s,
    decreases s.len(),
{
    reveal(Seq::filter);
    if s.len() > 0 {
        let d = s.drop_last();
        if d.contains(x) {
            let w = choose|w: int| 0 <= w < d.len() && d[w] == x;
            assert(s[w] == x);
        }
        assert(s[s.len() - 1] != x);
        lemma_filter_absent(d, x);
        assert(d.push(s.last()) =~= s);
    }
}

/// The encoder's XOR over the first `n` sources is the XOR over that prefix.
pub proof fn lemma_xor_at_prefix(truth: Seq<Seq<u8>>, s: Seq<usize>, n: int, j: int)
    requires
        0 <= n <= s.len(),
    ensures
        xor_at(truth, s, n, j) == xor_seq(truth, s.take(n), j),
    decreases n,
{
    if n > 0 {
        lemma_xor_at_prefix(truth, s, n - 1, j);
        assert(s.take(n).drop_last() =~= s.take(n - 1));
    }
}

/// Copies a byte vector.
fn copy_bytes(v: &Vec<u8>) -> (r: Vec<u8>)
    ensures
        r@ == v@,
{
    let mut r: Vec<u8> = Vec::with_capacity(v.len());
    let mut i: usize = 0;
    while i < v.len()
        invariant
            i <= v@.len(),
            r@ == v@.take(i as int),
        decreases v.len() - i,
    {
        r.push(v[i]);
        i = i + 1;
        assert(r@ =~= v@.take(i as int));
    }
    assert(v@.take(i as int) =~= v@);
    r
}

/// XORs `src` into the first bytes of `dst` (as many as both hold).
fn xor_into(dst: &mut Vec<u8>, src: &Vec<u8>)
    ensures
        final(dst)@.len() == old(dst)@.len(),
        forall|j: int|
            0 <= j < old(dst)@.len() ==> #[trigger] final(dst)@[j] == if j < src@.len() {
                old(dst)@[j] ^ src@[j]
            } else {
                old(dst)@[j]
            },
{
    let mut j: usize = 0;
    while j < dst.len() && j < src.len()
        invariant
            j <= dst@.len(),
            j <= src@.len(),
            dst@.len() == old(dst)@.len(),
            forall|b: int| 0 <= b < j ==> #[trigger] dst@[b] == old(dst)@[b] ^ src@[b],
            forall|b: int| j <= b < dst@.len() ==> #[trigger] dst@[b] == old(dst)@[b],
        decreases dst.len() - j,
    {
        let v = dst[j] ^ src[j];
        dst.set(j, v);
        j = j + 1;
    }
}

/// Removes every occurrence of `x`.
fn remove_value(v: &mut Vec<usize>, x: usize)
    ensures
        final(v)@.len() <= old(v)@.len(),
        forall|y: usize| #[trigger] final(v)@.contains(y) <==> old(v)@.contains(y) && y != x,
        old(v)@.no_duplicates() ==> final(v)@.no_duplicates(),
        final(v)@ == old(v)@.filter(|y: usize| y != x),
{
    let mut out: Vec<usize> = Vec::new();
    let mut i: usize = 0;
    while i < v.len()
        invariant
            i <= v@.len(),
            v@ == old(v)@,
            out@.len() <= i,
            out@ == v@.take(i as int).filter(|y: usize| y != x),
            forall|y: usize| #[trigger] out@.contains(y) <==> v@.take(i as int).contains(y) && y != x,
            v@.no_duplicates() ==> out@.no_duplicates(),
        decreases v.len() - i,
    {
        let ghost pre = out@;
        let ghost taken = v@.take(i as int);
        let y = v[i];
        assert(v@.take(i as int + 1) =~= taken.push(y));
        assert(taken.push(y).drop_last() =~= taken);
        reveal(Seq::filter);
        if y != x {
            out.push(y);
            proof {
                if v@.no_duplicates() {
                    if pre.contains(y) {
                        let w = choose|w: int| 0 <= w < taken.len() && taken[w] == y;
                        assert(v@[w] == v@[i as int]);
                    }
                }
            }
        }
        assert forall|z: usize| #[trigger] out@.contains(z) <==> v@.take(i as int + 1).contains(z) && z != x by {
            if out@.contains(z) && z != y {
                let w = choose|w: int| 0 <= w < out@.len() && out@[w] == z;
                assert(pre[w] == z);
            }
            if taken.push(y).contains(z) && z != y {
                let w = choose|w: int| 0 <= w < taken.len() + 1 && taken.push(y)[w] == z;
                assert(taken[w] == z);
            }
            if pre.contains(z) {
                let w = choose|w: int| 0 <= w < pre.len() && pre[w] == z;
                assert(out@[w] == z);
            }
            if taken.contains(z) {
                let w = choose|w: int| 0 <= w < taken.len() && taken[w] == z;
                assert(taken.push(y)[w] == z);
            }
            if z == y && y != x {
                assert(out@[out@.len() - 1] == z);
            }
            assert(taken.push(y)[taken.len() as int] == y);
        }
        i = i + 1;
    }
    assert(v@.take(i as int) =~= v@);
    *v = out;
}

/// Replaces every occurrence of `from` by `to`.
fn replace_value(v: &mut Vec<usize>, from: usize, to: usize)
    ensures
        final(v)@.len() == old(v)@.len(),
        forall|y: usize|
            #[trigger] final(v)@.contains(y) <==> (old(v)@.contains(y) && y != from) || (y == to
                && old(v)@.contains(from)),
        old(v)@.no_duplicates() && (!old(v)@.contains(to) || !old(v)@.contains(from))
            ==> final(v)@.no_duplicates(),
{
    let mut i: usize = 0;
    while i < v.len()
        invariant
            i <= v@.len(),
            v@.len() == old(v)@.len(),
            forall|b: int| 0 <= b < i ==> #[trigger] v@[b] == if old(v)@[b] == from { to } else { old(v)@[b] },
            forall|b: int| i <= b < v@.len() ==> #[trigger] v@[b] == old(v)@[b],
        decreases v.len() - i,
    {
        if v[i] == from {
            v.set(i, to);
        }
        i = i + 1;
    }
    let ghost o = old(v)@;
    let ghost n = v@;
    assert forall|y: usize| #[trigger] n.contains(y) <==> (o.contains(y) && y != from) || (y == to
        && o.contains(from)) by {
        if n.contains(y) {
            let w = choose|w: int| 0 <= w < n.len() && n[w] == y;
            assert(o[w] == from || o[w] == y);
        }
        if o.contains(y) && y != from {
            let w = choose|w: int| 0 <= w < o.len() && o[w] == y;
            assert(n[w] == y);
        }
        if y == to && o.contains(from) {
            let w = choose|w: int| 0 <= w < o.len() && o[w] == from;
            assert(n[w] == y);
        }
    }
    proof {
    if o.no_duplicates() && (!o.contains(to) || !o.contains(from)) {
        assert forall|a: int, b: int| 0 <= a < n.len() && 0 <= b < n.len() && a != b implies n[a]
            != n[b] by {
            if o[a] == from && o[b] != from {
                assert(o.contains(from));
                if o[b] == to {
                    assert(o.contains(to));
                }
            }
            if o[b] == from && o[a] != from {
                assert(o.contains(from));
                if o[a] == to {
                    assert(o.contains(to));
                }
            }
        }
    }
    }
}

/// Each unknown of each equation is a block index whose reference list
/// holds the equation's position.
spec fn eqs_registered(pend: Seq<Pending>, refs: Seq<Vec<usize>>, k: int) -> bool {
    forall|p: int, a: int|
        0 <= p < pend.len() && 0 <= a < pend[p].unknown@.len() ==> {
            let x = #[trigger] pend[p].unknown@[a];
            x < k && refs[x as int]@.contains(p as usize)
        }
}

/// Each entry of each reference list is the position of an equation that
/// holds the block.
spec fn refs_point_back(pend: Seq<Pending>, refs: Seq<Vec<usize>>) -> bool {
    forall|i: int, t: int|
        0 <= i < refs.len() && 0 <= t < refs[i]@.len() ==> {
            let p = #[trigger] refs[i]@[t];
            p < pend.len() && pend[p as int].unknown@.contains(i as usize)
        }
}

/// No reference list and no unknown set repeats an entry.
spec fn no_repeats(pend: Seq<Pending>, refs: Seq<Vec<usize>>) -> bool {
    &&& forall|i: int| 0 <= i < refs.len() ==> (#[trigger] refs[i])@.no_duplicates()
    &&& forall|p: int| 0 <= p < pend.len() ==> (#[trigger] pend[p]).unknown@.no_duplicates()
}

/// Byte `j` of the payload of `packet`, zero past its end.
pub open spec fn payload_byte(packet: Seq<u8>, j: int) -> u8 {
    if HEADER_LEN + j < packet.len() {
        packet[HEADER_LEN + j]
    } else {
        0
    }
}

proof fn lemma_xor_cancel(p: u8, x: u8, u: u8)
    requires
        (p ^ x) ^ u == u,
    ensures
        p == x,
{
    assert(p == x) by (bit_vector)
        requires
            (p ^ x) ^ u == u,
    ;
}

proof fn lemma_xor_step(p: u8, x: u8, u: u8, b: u8)
    ensures
        ((p ^ x) ^ u) ^ b == (p ^ (x ^ b)) ^ u,
        (p ^ x) ^ u == (p ^ (x ^ b)) ^ (u ^ b),
        (p ^ p) ^ u == u,
        (0u8 ^ 0u8) ^ 0u8 == 0u8,
{
    assert(((p ^ x) ^ u) ^ b == (p ^ (x ^ b)) ^ u) by (bit_vector);
    assert((p ^ x) ^ u == (p ^ (x ^ b)) ^ (u ^ b)) by (bit_vector);
    assert((p ^ p) ^ u == u) by (bit_vector);
    assert((0u8 ^ 0u8) ^ 0u8 == 0u8) by (bit_vector);
}

/// Reconstructs a payload from packets received in any order.
pub struct LTDecoder {
    k: usize,
    block_size: usize,
    run_id: u32,
    thresholds: Vec<u64>,
    blocks: Vec<Option<Vec<u8>>>,
    pending: Vec<Pending>,
    block_refs: Vec<Vec<usize>>,
    decoded_count: usize,
    seen: HashSet<u32>,
    pos_to_id: Vec<u32>,
    id_to_pos: HashMap<u32, usize>,
    next_id: u32,
}

/// The bytes of a recovered slot.
pub open spec fn slot_view(o: Option<Vec<u8>>) -> Option<Seq<u8>> {
    match o {
        Some(b) => Some(b@),
        None => None,
    }
}

impl LTDecoder {
    pub closed spec fn spec_k(&self) -> int {
        self.k as int
    }

    pub closed spec fn spec_block_size(&self) -> int {
        self.block_size as int
    }

    pub closed spec fn spec_run_id(&self) -> u32 {
        self.run_id
    }

    pub closed spec fn spec_thresholds(&self) -> Seq<u64> {
        self.thresholds@
    }

    /// Sequence numbers of the packets accepted so far.
    pub closed spec fn seen_view(&self) -> Set<u32> {
        self.seen@
    }

    /// Recovered blocks: `None` for a block still unknown.
    pub closed spec fn blocks_view(&self) -> Seq<Option<Seq<u8>>> {
        self.blocks@.map_values(|o: Option<Vec<u8>>| slot_view(o))
    }

    /// Number of recovered blocks.
    pub closed spec fn spec_decoded(&self) -> int {
        self.decoded_count as int
    }

    /// Every block is recovered.
    pub open spec fn is_done_spec(&self) -> bool {
        self.spec_decoded() == self.spec_k()
    }

    /// The packet is accepted: the session is not complete, the header is
    /// whole, the session identifier matches and the sequence number is new.
    pub open spec fn accepts(&self, packet: Seq<u8>) -> bool {
        &&& !self.is_done_spec()
        &&& packet.len() >= HEADER_LEN
        &&& be_u32_at(packet, 0) == self.spec_run_id()
        &&& !self.seen_view().contains(be_u32_at(packet, 12))
    }

    /// The invariant of the decoder: its shape, and the equation graph with
    /// no recovery waiting to be substituted.
    pub closed spec fn wf(&self) -> bool {
        self.shape() && self.graph(Seq::empty(), -1, -1)
    }

    /// The equation graph: every equation is registered under each of its
    /// unknown blocks, every registration points back at an equation that
    /// holds the block, no list repeats an entry, every equation (but `skip`)
    /// has at least two unknowns, and every unknown is unrecovered unless it
    /// is listed in `waiting` or equals `extra` (recovered, not yet peeled).
    pub closed spec fn graph(&self, waiting: Seq<usize>, extra: int, skip: int) -> bool {
        &&& eqs_registered(self.pending@, self.block_refs@, self.k as int)
        &&& refs_point_back(self.pending@, self.block_refs@)
        &&& no_repeats(self.pending@, self.block_refs@)
        &&& forall|p: int|
            0 <= p < self.pending@.len() && p != skip ==> (#[trigger] self.pending@[p]).unknown@.len()
                >= 2
        &&& forall|p: int, a: int|
            0 <= p < self.pending@.len() && 0 <= a < self.pending@[p].unknown@.len() ==> {
                let x = #[trigger] self.pending@[p].unknown@[a];
                self.blocks_view()[x as int] is None || waiting.contains(x) || x == extra
            }
    }

    /// The decoder agrees with the source blocks `truth`: every recovered
    /// block equals its source block, and every equation's residual is the
    /// XOR of the source blocks it still lists.
    pub closed spec fn consistent(&self, truth: Seq<Seq<u8>>) -> bool {
        &&& truth.len() == self.k
        &&& forall|i: int| 0 <= i < truth.len() ==> (#[trigger] truth[i]).len() == self.block_size
        &&& forall|i: int|
            0 <= i < self.k && (#[trigger] self.blocks_view()[i]) is Some ==> self.blocks_view()[i]->0
                == truth[i]
        &&& forall|p: int, j: int|
            0 <= p < self.pending@.len() && 0 <= j < self.block_size ==> #[trigger] self.pending@[p].data@[j]
                == xor_seq(truth, self.pending@[p].unknown@, j)
    }

    /// `packet` carries the XOR of the blocks of `truth` that the oracle
    /// selects for its sequence number in this session.
    pub open spec fn honest_for(&self, packet: Seq<u8>, truth: Seq<Seq<u8>>) -> bool {
        forall|j: int|
            0 <= j < self.spec_block_size() ==> #[trigger] payload_byte(packet, j) == xor_seq(
                truth,
                sources_spec(self.spec_thresholds(), self.spec_run_id(), be_u32_at(packet, 12), self.spec_k()),
                j,
            )
    }

    /// Some block that the oracle selects for `packet` is still unknown.
    pub open spec fn touches_unknown(&self, packet: Seq<u8>) -> bool {
        let src = sources_spec(self.spec_thresholds(), self.spec_run_id(), be_u32_at(packet, 12), self.spec_k());
        exists|a: int| 0 <= a < src.len() && (#[trigger] self.blocks_view()[src[a] as int]) is None
    }

    /// Lengths and sizes, and the count of recovered blocks.
    pub closed spec fn shape(&self) -> bool {
        &&& self.k <= u32::MAX
        &&& self.blocks@.len() == self.k
        &&& self.block_refs@.len() == self.k
        &&& self.pos_to_id@.len() == self.pending@.len()
        &&& self.decoded_count == count_known(self.blocks_view())
        &&& forall|i: int|
            0 <= i < self.k && (#[trigger] self.blocks@[i]) is Some ==> self.blocks@[i]->0@.len()
                == self.block_size
        &&& forall|p: int| 0 <= p < self.pending@.len() ==> (#[trigger] self.pending@[p]).data@.len()
            == self.block_size
    }

    /// A decoder for `k` blocks of `block_size` bytes in session `run_id`;
    /// `thresholds` must be the degree table that the encoder uses.
    pub fn new(k: u32, block_size: u32, run_id: u32, thresholds: Vec<u64>) -> (r: LTDecoder)
        ensures
            r.wf(),
            r.spec_k() == k,
            r.spec_block_size() == block_size,
            r.spec_run_id() == run_id,
            r.spec_thresholds() == thresholds@,
            r.seen_view() == Set::<u32>::empty(),
            r.blocks_view() == Seq::new(k as nat, |i: int| None::<Seq<u8>>),
            r.spec_decoded() == 0,
            r.pending_count() == 0,
            r.refs_view() == Seq::new(k as nat, |i: int| Seq::<usize>::empty()),
            forall|t: Seq<Seq<u8>>|
                t.len() == k && (forall|i: int| 0 <= i < t.len() ==> (#[trigger] t[i]).len() == block_size)
                    ==> #[trigger] r.consistent(t),
    {
        let k = k as usize;
        let mut blocks: Vec<Option<Vec<u8>>> = Vec::with_capacity(k);
        let mut block_refs: Vec<Vec<usize>> = Vec::with_capacity(k);
        let mut i: usize = 0;
        while i < k
            invariant
                i <= k,
                blocks@.len() == i,
                block_refs@.len() == i,
                forall|a: int| 0 <= a < i ==> (#[trigger] blocks@[a]) is None,
                forall|a: int| 0 <= a < i ==> (#[trigger] block_refs@[a])@.len() == 0,
            decreases k - i,
        {
            blocks.push(None);
            block_refs.push(Vec::new());
            i = i + 1;
        }
        let r = LTDecoder {
            k,
            block_size: block_size as usize,
            run_id,
            thresholds,
            blocks,
            pending: Vec::new(),
            block_refs,
            decoded_count: 0,
            seen: HashSet::new(),
            pos_to_id: Vec::new(),
            id_to_pos: HashMap::new(),
            next_id: 0,
        };
        assert(r.blocks_view() =~= Seq::new(k as nat, |i: int| None::<Seq<u8>>));
        proof {
            lemma_count_none(r.blocks_view());
            assert forall|i: int| 0 <= i < k implies #[trigger] r.refs_view()[i] == Seq::<usize>::empty() by {
                assert(r.refs_view()[i] =~= Seq::<usize>::empty());
            }
            assert(r.refs_view() =~= Seq::new(k as nat, |i: int| Seq::<usize>::empty()));
        }
        r
    }

    /// A complete decoder that is consistent with `truth` holds exactly
    /// `truth`: its output is the concatenation of the source blocks.
    pub proof fn lemma_done_is_truth(&self, truth: Seq<Seq<u8>>)
        requires
            self.wf(),
            self.consistent(truth),
            self.is_done_spec(),
        ensures
            self.blocks_view() == truth.map_values(|b: Seq<u8>| Some(b)),
            joined(self.blocks_view()) == concat(truth),
    {
        lemma_count_bounds(self.blocks_view());
        assert(self.blocks_view() =~= truth.map_values(|b: Seq<u8>| Some(b)));
        lemma_joined_concat(truth);
    }

    /// The unknown-block lists of the pending equations, by position.
    pub closed spec fn equations_view(&self) -> Seq<Seq<usize>> {
        self.pending@.map_values(|e: Pending| e.unknown@)
    }

    /// The reference lists: for each block, positions of equations.
    pub closed spec fn refs_view(&self) -> Seq<Seq<usize>> {
        self.block_refs@.map_values(|r: Vec<usize>| r@)
    }

    /// The equation graph holds between calls: each equation at position `p`
    /// is listed under every block it mentions, and every entry `p` of
    /// block `i`'s list is a live position whose equation mentions `i`; each
    /// equation mentions at least two blocks, none of them recovered.
    pub proof fn lemma_graph(&self)
        requires
            self.wf(),
        ensures
            self.refs_view().len() == self.spec_k(),
            forall|p: int, a: int|
                0 <= p < self.equations_view().len() && 0 <= a < self.equations_view()[p].len() ==> {
                    let i = #[trigger] self.equations_view()[p][a];
                    &&& i < self.spec_k()
                    &&& self.refs_view()[i as int].contains(p as usize)
                    &&& self.blocks_view()[i as int] is None
                },
            forall|i: int, t: int|
                0 <= i < self.spec_k() && 0 <= t < self.refs_view()[i].len() ==> {
                    let p = #[trigger] self.refs_view()[i][t];
                    p < self.equations_view().len() && self.equations_view()[p as int].contains(i as usize)
                },
            forall|p: int| 0 <= p < self.equations_view().len() ==> (#[trigger] self.equations_view()[p]).len() >= 2,
    {
        assert forall|p: int, a: int|
            0 <= p < self.equations_view().len() && 0 <= a < self.equations_view()[p].len() implies {
                let i = #[trigger] self.equations_view()[p][a];
                &&& i < self.spec_k()
                &&& self.refs_view()[i as int].contains(p as usize)
                &&& self.blocks_view()[i as int] is None
            } by {
            assert(self.equations_view()[p][a] == self.pending@[p].unknown@[a]);
        }
        assert forall|i: int, t: int|
            0 <= i < self.spec_k() && 0 <= t < self.refs_view()[i].len() implies {
                let p = #[trigger] self.refs_view()[i][t];
                p < self.equations_view().len() && self.equations_view()[p as int].contains(i as usize)
            } by {
            assert(self.refs_view()[i][t] == self.block_refs@[i]@[t]);
        }
        assert forall|p: int| 0 <= p < self.equations_view().len() implies (#[trigger] self.equations_view()[p]).len() >= 2 by {
            assert(self.equations_view()[p] == self.pending@[p].unknown@);
        }
    }

    /// Two complete decoders that are consistent with the same source blocks
    /// hold the same blocks, whatever packets, in whatever order, brought
    /// them there.
    pub proof fn lemma_complete_decoders_agree(&self, other: &LTDecoder, truth: Seq<Seq<u8>>)
        requires
            self.wf(),
            other.wf(),
            self.is_done_spec(),
            other.is_done_spec(),
            self.consistent(truth),
            other.consistent(truth),
        ensures
            self.blocks_view() == other.blocks_view(),
    {
        self.lemma_done_is_truth(truth);
        other.lemma_done_is_truth(truth);
    }

    /// The decoder has one slot per block, at most `u32::MAX` of them, and
    /// its count of recovered blocks is exact and at most `k`.
    pub proof fn lemma_counts(&self)
        requires
            self.wf(),
        ensures
            self.blocks_view().len() == self.spec_k(),
            self.spec_k() <= u32::MAX,
            self.spec_decoded() == count_known(self.blocks_view()),
            0 <= self.spec_decoded() <= self.spec_k(),
    {
        lemma_count_bounds(self.blocks_view());
    }

    /// Source blocks that a decoder is consistent with have its shape.
    pub proof fn lemma_truth_shape(&self, truth: Seq<Seq<u8>>)
        requires
            self.consistent(truth),
        ensures
            truth.len() == self.spec_k(),
            forall|i: int| 0 <= i < truth.len() ==> (#[trigger] truth[i]).len() == self.spec_block_size(),
    {
    }

    /// A complete decoder holds no pending equation: each would list only
    /// recovered blocks, and every equation lists at least two unknowns.
    pub proof fn lemma_done_no_pending(&self)
        requires
            self.wf(),
            self.is_done_spec(),
        ensures
            self.pending_count() == 0,
    {
        lemma_count_bounds(self.blocks_view());
        if self.pending@.len() > 0 {
            let x = self.pending@[0].unknown@[0];
            assert(self.blocks_view()[x as int] is None);
        }
    }

    /// Number of pending equations.
    pub closed spec fn pending_count(&self) -> nat {
        self.pending@.len()
    }

    /// The recovered payload, cut to `original_len` bytes; empty while the
    /// session is incomplete.
    pub fn get_result(&self, original_len: u32) -> (r: Vec<u8>)
        requires
            self.wf(),
        ensures
            !self.is_done_spec() ==> r@.len() == 0,
            self.is_done_spec() ==> r@ == joined(self.blocks_view()).take(
                vstd::math::min(original_len as int, joined(self.blocks_view()).len() as int),
            ),
    {
        if self.decoded_count != self.k {
            return Vec::new();
        }
        let mut out: Vec<u8> = Vec::new();
        let mut i: usize = 0;
        while i < self.blocks.len()
            invariant
                i <= self.blocks@.len(),
                out@ == joined(self.blocks_view().take(i as int)),
            decreases self.blocks.len() - i,
        {
            let ghost bv = self.blocks_view();
            assert(bv.take(i as int + 1).drop_last() =~= bv.take(i as int));
            assert(bv.take(i as int + 1).last() == bv[i as int]);
            match &self.blocks[i] {
                Some(b) => {
                    let mut j: usize = 0;
                    let ghost base = out@;
                    while j < b.len()
                        invariant
                            j <= b@.len(),
                            out@ == base + b@.take(j as int),
                        decreases b.len() - j,
                    {
                        out.push(b[j]);
                        j = j + 1;
                        assert(out@ =~= base + b@.take(j as int));
                    }
                    assert(b@.take(j as int) =~= b@);
                },
                None => {
                    assert(out@ =~= out@ + Seq::<u8>::empty());
                },
            }
            i = i + 1;
        }
        assert(self.blocks_view().take(i as int) =~= self.blocks_view());
        out.truncate(original_len as usize);
        out
    }

    /// Deletes equation `pos`: unregisters it from its unknown blocks, moves
    /// the last equation into its slot (re-pointing that equation's
    /// registrations and its identifier) and truncates.
    fn remove_pending(&mut self, pos: usize, Ghost(waiting): Ghost<Seq<usize>>, Ghost(extra): Ghost<int>)
        requires
            old(self).shape(),
            old(self).graph(waiting, extra, pos as int),
        ensures
            final(self).shape(),
            final(self).graph(waiting, extra, -1),
            pos >= old(self).pending@.len() ==> *final(self) == *old(self),
            pos < old(self).pending@.len() ==> {
                &&& final(self).pending@ == old(self).pending@.update(pos as int, old(self).pending@.last()).drop_last()
                &&& final(self).pos_to_id@ == old(self).pos_to_id@.update(pos as int, old(self).pos_to_id@.last()).drop_last()
                &&& pos == old(self).pending@.len() - 1 ==> final(self).id_to_pos@ == old(self).id_to_pos@.remove(
                    old(self).pos_to_id@[pos as int],
                )
                &&& pos < old(self).pending@.len() - 1 ==> final(self).id_to_pos@ == old(self).id_to_pos@.remove(
                    old(self).pos_to_id@[pos as int],
                ).insert(old(self).pos_to_id@.last(), pos)
            },
            forall|t: Seq<Seq<u8>>| #[trigger] old(self).consistent(t) ==> final(self).consistent(t),
            final(self).k == old(self).k,
            final(self).block_size == old(self).block_size,
            final(self).run_id == old(self).run_id,
            final(self).thresholds == old(self).thresholds,
            final(self).blocks == old(self).blocks,
            final(self).decoded_count == old(self).decoded_count,
            final(self).seen == old(self).seen,
            forall|i: int|
                0 <= i < old(self).k ==> (#[trigger] final(self).block_refs@[i])@.len() <= old(
                    self,
                ).block_refs@[i]@.len(),
    {
        let len = self.pending.len();
        if pos >= len {
            proof {
                assert forall|p: int| 0 <= p < self.pending@.len() && p != -1 implies (#[trigger] self.pending@[p]).unknown@.len() >= 2 by {
                    assert(p != pos);
                }
            }
            return;
        }
        let ghost refs0 = self.block_refs@;
        let ghost pend = self.pending@;
        let ghost k = self.k as int;
        let ghost upos = pend[pos as int].unknown@;
        let n = self.pending[pos].unknown.len();
        let mut a: usize = 0;
        while a < n
            invariant
                self.shape(),
                pos < len,
                self.pending@ == pend,
                pend.len() == len,
                upos == pend[pos as int].unknown@,
                n == upos.len(),
                a <= n,
                k == self.k,
                self.block_refs@.len() == k,
                refs0.len() == k,
                eqs_registered(pend, refs0, k),
                refs_point_back(pend, refs0),
                no_repeats(pend, refs0),
                self.k == old(self).k,
                self.block_size == old(self).block_size,
                self.run_id == old(self).run_id,
                self.thresholds == old(self).thresholds,
                self.blocks == old(self).blocks,
                self.decoded_count == old(self).decoded_count,
                self.seen == old(self).seen,
                self.pos_to_id == old(self).pos_to_id,
                self.id_to_pos == old(self).id_to_pos,
                forall|i: int| 0 <= i < k ==> (#[trigger] self.block_refs@[i])@.no_duplicates(),
                forall|i: int|
                    0 <= i < k ==> (#[trigger] self.block_refs@[i])@.len() <= refs0[i]@.len(),
                forall|i: int, y: usize|
                    0 <= i < k ==> (#[trigger] self.block_refs@[i]@.contains(y) <==> refs0[i]@.contains(y)
                        && !(y == pos && upos.take(a as int).contains(i as usize))),
            decreases n - a,
        {
            let j = self.pending[pos].unknown[a];
            assert(upos[a as int] == j);
            let ghost before = self.block_refs@;
            remove_value(&mut self.block_refs[j], pos);
            assert(upos.take(a as int + 1) =~= upos.take(a as int).push(j));
            assert forall|i: int, y: usize|
                0 <= i < k implies (#[trigger] self.block_refs@[i]@.contains(y) <==> refs0[i]@.contains(y)
                    && !(y == pos && upos.take(a as int + 1).contains(i as usize))) by {
                let t = upos.take(a as int);
                if t.push(j).contains(i as usize) && i != j {
                    let w = choose|w: int| 0 <= w < t.len() + 1 && t.push(j)[w] == i as usize;
                    assert(t[w] == i as usize);
                }
                if t.contains(i as usize) {
                    let w = choose|w: int| 0 <= w < t.len() && t[w] == i as usize;
                    assert(t.push(j)[w] == i as usize);
                }
                assert(t.push(j)[t.len() as int] == j);
                if i != j {
                    assert(self.block_refs@[i] == before[i]);
                }
            }
            a = a + 1;
        }
        assert(upos.take(n as int) =~= upos);
        // No list holds `pos` any more.
        assert forall|i: int| 0 <= i < k implies !(#[trigger] self.block_refs@[i])@.contains(pos) by {
            if refs0[i]@.contains(pos) {
                let t = choose|t: int| 0 <= t < refs0[i]@.len() && refs0[i]@[t] == pos;
                assert(pend[refs0[i]@[t] as int].unknown@.contains(i as usize));
            }
        }
        let ghost refs1 = self.block_refs@;
        let last = len - 1;
        let removed_id = self.pos_to_id[pos];
        let ghost ulast = pend[last as int].unknown@;
        if pos != last {
            let m = self.pending[last].unknown.len();
            let mut a: usize = 0;
            while a < m
                invariant
                    self.shape(),
                    pos < last,
                    last == len - 1,
                    self.pending@ == pend,
                    pend.len() == len,
                    ulast == pend[last as int].unknown@,
                    ulast.no_duplicates(),
                    eqs_registered(pend, refs0, k),
                    m == ulast.len(),
                    a <= m,
                    k == self.k,
                    self.block_refs@.len() == k,
                    refs1.len() == k,
                    self.k == old(self).k,
                    self.block_size == old(self).block_size,
                    self.run_id == old(self).run_id,
                    self.thresholds == old(self).thresholds,
                    self.blocks == old(self).blocks,
                    self.decoded_count == old(self).decoded_count,
                    self.seen == old(self).seen,
                    self.pos_to_id == old(self).pos_to_id,
                    self.id_to_pos == old(self).id_to_pos,
                    forall|i: int| 0 <= i < k ==> (#[trigger] self.block_refs@[i])@.no_duplicates(),
                    forall|i: int| 0 <= i < k ==> !(#[trigger] refs1[i])@.contains(pos),
                    forall|i: int|
                        0 <= i < k ==> (#[trigger] self.block_refs@[i])@.len() <= refs0[i]@.len(),
                    forall|i: int, y: usize|
                        0 <= i < k ==> (#[trigger] self.block_refs@[i]@.contains(y) <==> if ulast.take(
                            a as int,
                        ).contains(i as usize) {
                            (refs1[i]@.contains(y) && y != last) || (y == pos && refs1[i]@.contains(last))
                        } else {
                            refs1[i]@.contains(y)
                        }),
                decreases m - a,
            {
                let j = self.pending[last].unknown[a];
                assert(ulast[a as int] == j);
                let ghost before = self.block_refs@;
                proof {
                    if ulast.take(a as int).contains(j) {
                        let w = choose|w: int| 0 <= w < a && ulast.take(a as int)[w] == j;
                        assert(ulast[w] == ulast[a as int]);
                    }
                    assert(before[j as int]@.contains(pos) == refs1[j as int]@.contains(pos));
                }
                replace_value(&mut self.block_refs[j], last, pos);
                assert(ulast.take(a as int + 1) =~= ulast.take(a as int).push(j));
                assert forall|i: int, y: usize|
                    0 <= i < k implies (#[trigger] self.block_refs@[i]@.contains(y) <==> if ulast.take(
                        a as int + 1,
                    ).contains(i as usize) {
                        (refs1[i]@.contains(y) && y != last) || (y == pos && refs1[i]@.contains(last))
                    } else {
                        refs1[i]@.contains(y)
                    }) by {
                    let t = ulast.take(a as int);
                    if t.push(j).contains(i as usize) && i != j {
                        let w = choose|w: int| 0 <= w < t.len() + 1 && t.push(j)[w] == i as usize;
                        assert(t[w] == i as usize);
                    }
                    if t.contains(i as usize) {
                        let w = choose|w: int| 0 <= w < t.len() && t[w] == i as usize;
                        assert(t.push(j)[w] == i as usize);
                    }
                    assert(t.push(j)[t.len() as int] == j);
                    if i != j {
                        assert(self.block_refs@[i] == before[i]);
                    }
                }
                a = a + 1;
            }
            assert(ulast.take(m as int) =~= ulast);
        }
        self.id_to_pos.remove(&removed_id);
        if pos != last {
            let last_id = self.pos_to_id[last];
            self.id_to_pos.insert(last_id, pos);
            self.pos_to_id.set(pos, last_id);
        }
        let ghost refs2 = self.block_refs@;
        self.pending.swap_remove(pos);
        self.pos_to_id.pop();
        let ghost np = self.pending@;
        assert(np.len() == len - 1);
        assert forall|t: Seq<Seq<u8>>| #[trigger] old(self).consistent(t) implies self.consistent(t) by {
            assert forall|p: int, j: int|
                0 <= p < np.len() && 0 <= j < self.block_size implies #[trigger] np[p].data@[j]
                    == xor_seq(t, np[p].unknown@, j) by {
                if p == pos {
                    assert(np[p] == pend[last as int]);
                } else {
                    assert(np[p] == pend[p]);
                }
            }
        }
        proof {
            // Membership in the final lists, case by case.
            assert forall|i: int, y: usize| 0 <= i < k implies (#[trigger] refs2[i]@.contains(y) ==> (y < len
                - 1 && np[y as int].unknown@.contains(i as usize))) by {
                if refs2[i]@.contains(y) {
                    if pos != last && ulast.contains(i as usize) {
                        if y == pos {
                        } else {
                            assert(refs1[i]@.contains(y) && y != last);
                            let t = choose|t: int| 0 <= t < refs0[i]@.len() && refs0[i]@[t] == y;
                            assert(pend[refs0[i]@[t] as int].unknown@.contains(i as usize));
                        }
                    } else {
                        assert(refs1[i]@.contains(y));
                        let t = choose|t: int| 0 <= t < refs0[i]@.len() && refs0[i]@[t] == y;
                        assert(pend[refs0[i]@[t] as int].unknown@.contains(i as usize));
                        if y == last && pos != last {
                            let w = choose|w: int| 0 <= w < ulast.len() && ulast[w] == i as usize;
                        }
                    }
                }
            }
            assert forall|i: int, t: int| 0 <= i < k && 0 <= t < refs2[i]@.len() implies {
                let p = #[trigger] refs2[i]@[t];
                p < np.len() && np[p as int].unknown@.contains(i as usize)
            } by {
                assert(refs2[i]@.contains(refs2[i]@[t]));
            }
            assert forall|p: int, a: int| 0 <= p < np.len() && 0 <= a < np[p].unknown@.len() implies {
                let x = #[trigger] np[p].unknown@[a];
                x < k && refs2[x as int]@.contains(p as usize)
            } by {
                let x = np[p].unknown@[a];
                if p == pos {
                    assert(pend[last as int].unknown@[a] == x);
                    assert(ulast.contains(x));
                    assert(refs0[x as int]@.contains(last));
                    assert(!upos.contains(x) || !refs0[x as int]@.contains(pos) || true);
                    assert(refs1[x as int]@.contains(last)) by {
                        assert(last != pos);
                    }
                } else {
                    assert(pend[p].unknown@[a] == x);
                    assert(refs0[x as int]@.contains(p as usize));
                    if pos != last {
                        if ulast.contains(x) {
                            assert(refs1[x as int]@.contains(p as usize));
                        }
                    }
                }
            }
        }
    }

    /// Ingests one packet and returns whether the session is now complete.
    ///
    /// A packet is dropped, leaving the decoder unchanged, when the session
    /// is already complete, the header is cut short, the session identifier
    /// differs or the sequence number was accepted before. A payload shorter
    /// than the block size is zero-padded, a longer one cut.
    pub fn push_packet(&mut self, packet: &[u8]) -> (r: bool)
        requires
            old(self).wf(),
        ensures
            final(self).wf(),
            !old(self).accepts(packet@) ==> *final(self) == *old(self) && r == old(self).is_done_spec(),
            old(self).accepts(packet@) ==> final(self).seen_view() == old(self).seen_view().insert(
                be_u32_at(packet@, 12),
            ),
            !final(self).accepts(packet@),
            r == final(self).is_done_spec(),
            final(self).spec_k() == old(self).spec_k(),
            final(self).spec_block_size() == old(self).spec_block_size(),
            final(self).spec_run_id() == old(self).spec_run_id(),
            final(self).spec_thresholds() == old(self).spec_thresholds(),
            final(self).spec_decoded() >= old(self).spec_decoded(),
            forall|i: int|
                0 <= i < old(self).spec_k() && (#[trigger] old(self).blocks_view()[i]) is Some
                    ==> final(self).blocks_view()[i] == old(self).blocks_view()[i],
            old(self).accepts(packet@) && old(self).spec_k() == 1 ==> r,
            forall|t: Seq<Seq<u8>>|
                #[trigger] old(self).consistent(t) && old(self).honest_for(packet@, t) ==> final(self).consistent(t),
            forall|t: Seq<Seq<u8>>|
                #[trigger] final(self).consistent(t) && old(self).consistent(t) && old(self).accepts(packet@)
                    && old(self).touches_unknown(packet@) ==> old(self).honest_for(packet@, t),
    {
        if self.decoded_count == self.k {
            return true;
        }
        if packet.len() < HEADER_LEN {
            return false;
        }
        let run_id = read_u32_be(packet, 0);
        if run_id != self.run_id {
            return false;
        }
        let seq_num = read_u32_be(packet, 12);
        if self.seen.contains(&seq_num) {
            return false;
        }
        self.seen.insert(seq_num);
        proof {
            lemma_count_bounds(self.blocks_view());
        }
        let k = self.k;
        let bs = self.block_size;
        let sources = packet_sources(self.run_id, seq_num, k, &self.thresholds);
        let mut data: Vec<u8> = Vec::with_capacity(bs);
        let mut j: usize = 0;
        while j < bs
            invariant
                j <= bs,
                data@.len() == j,
                packet@.len() >= HEADER_LEN,
                forall|b: int| 0 <= b < j ==> #[trigger] data@[b] == payload_byte(packet@, b),
            decreases bs - j,
        {
            if j < packet.len() - HEADER_LEN {
                data.push(packet[HEADER_LEN + j]);
            } else {
                data.push(0);
            }
            j = j + 1;
        }
        let mut unknown: Vec<usize> = Vec::new();
        let mut t: usize = 0;
        proof {
            assert(sources@.take(0) =~= Seq::<usize>::empty());
            assert forall|tr: Seq<Seq<u8>>, b: int|
                #![trigger self.consistent(tr), data@[b]]
                self.consistent(tr) && 0 <= b < bs implies data@[b] == (payload_byte(packet@, b) ^ xor_seq(
                    tr,
                    sources@.take(0),
                    b,
                )) ^ xor_seq(tr, unknown@, b) by {
                lemma_xor_laws(payload_byte(packet@, b), 0, 0);
            }
        }
        while t < sources.len()
            invariant
                self.wf(),
                self.k == k,
                self.block_size == bs,
                t <= sources@.len(),
                distinct_below(sources@, k as int),
                data@.len() == bs,
                unknown@.len() <= t,
                unknown@.no_duplicates(),
                forall|a: int| 0 <= a < unknown@.len() ==> (#[trigger] unknown@[a]) < k,
                forall|a: int|
                    0 <= a < unknown@.len() ==> exists|b: int| 0 <= b < t && sources@[b] == #[trigger] unknown@[a],
                forall|a: int|
                    0 <= a < unknown@.len() ==> (#[trigger] self.blocks_view()[unknown@[a] as int])
                        is None,
                k == 1 && t >= 1 && self.blocks_view()[0] is None ==> unknown@.len() >= 1,
                unknown@.len() == 0 ==> forall|b: int| 0 <= b < t ==> (#[trigger] self.blocks_view()[sources@[b] as int]) is Some,
                forall|tr: Seq<Seq<u8>>, b: int|
                    #![trigger self.consistent(tr), data@[b]]
                    self.consistent(tr) && 0 <= b < bs ==> data@[b] == (payload_byte(packet@, b) ^ xor_seq(
                        tr,
                        sources@.take(t as int),
                        b,
                    )) ^ xor_seq(tr, unknown@, b),
            decreases sources.len() - t,
        {
            let src = sources[t];
            let ghost d0 = data@;
            let ghost u0 = unknown@;
            proof {
                assert(sources@.take(t as int + 1).drop_last() =~= sources@.take(t as int));
                assert(sources@.take(t as int + 1).last() == src);
            }
            match &self.blocks[src] {
                Some(known) => {
                    xor_into(&mut data, known);
                    proof {
                        assert(slot_view(self.blocks@[src as int]) == Some(known@));
                        assert(self.blocks_view()[src as int] == Some(known@));
                        assert forall|tr: Seq<Seq<u8>>, b: int|
                            #![trigger self.consistent(tr), data@[b]]
                            self.consistent(tr) && 0 <= b < bs implies data@[b] == (payload_byte(packet@, b)
                                ^ xor_seq(tr, sources@.take(t as int + 1), b)) ^ xor_seq(tr, unknown@, b) by {
                            assert(d0[b] == (payload_byte(packet@, b) ^ xor_seq(tr, sources@.take(t as int), b))
                                ^ xor_seq(tr, u0, b));
                            assert(known@ == tr[src as int]);
                            lemma_xor_step(
                                payload_byte(packet@, b),
                                xor_seq(tr, sources@.take(t as int), b),
                                xor_seq(tr, u0, b),
                                tr[src as int][b],
                            );
                        }
                    }
                },
                None => {
                    proof {
                        if unknown@.contains(src) {
                            let w = choose|w: int| 0 <= w < unknown@.len() && unknown@[w] == src;
                            let b = choose|b: int| 0 <= b < t && sources@[b] == #[trigger] unknown@[w];
                            assert(sources@[b] == sources@[t as int]);
                        }
                    }
                    let ghost pre = unknown@;
                    unknown.push(src);
                    proof {
                        assert(unknown@.drop_last() =~= pre);
                        assert forall|tr: Seq<Seq<u8>>, b: int|
                            #![trigger self.consistent(tr), data@[b]]
                            self.consistent(tr) && 0 <= b < bs implies data@[b] == (payload_byte(packet@, b)
                                ^ xor_seq(tr, sources@.take(t as int + 1), b)) ^ xor_seq(tr, unknown@, b) by {
                            assert(d0[b] == (payload_byte(packet@, b) ^ xor_seq(tr, sources@.take(t as int), b))
                                ^ xor_seq(tr, u0, b));
                            lemma_xor_step(
                                payload_byte(packet@, b),
                                xor_seq(tr, sources@.take(t as int), b),
                                xor_seq(tr, u0, b),
                                tr[src as int][b],
                            );
                        }
                    }
                    assert forall|a: int| 0 <= a < unknown@.len() implies exists|b: int|
                        0 <= b < t + 1 && sources@[b] == #[trigger] unknown@[a] by {
                        if a < pre.len() {
                            assert(unknown@[a] == pre[a]);
                            let b = choose|b: int| 0 <= b < t && sources@[b] == #[trigger] pre[a];
                        } else {
                            assert(sources@[t as int] == unknown@[a]);
                        }
                    }
                },
            }
            t = t + 1;
        }
        proof {
            if k == 1 {
                assert(self.blocks_view()[0] is None);
            }
            assert(sources@.take(sources@.len() as int) =~= sources@);
            assert forall|tr: Seq<Seq<u8>>, b: int|
                #![trigger old(self).consistent(tr), data@[b]]
                old(self).consistent(tr) && old(self).honest_for(packet@, tr) && 0 <= b < bs implies data@[b]
                    == xor_seq(tr, unknown@, b) by {
                assert(self.consistent(tr));
                assert(payload_byte(packet@, b) == xor_seq(tr, sources@, b));
                lemma_xor_step(payload_byte(packet@, b), payload_byte(packet@, b), xor_seq(tr, unknown@, b), 0);
            }
            assert forall|tr: Seq<Seq<u8>>| #[trigger] old(self).consistent(tr) implies self.consistent(tr) by {}
            assert forall|tr: Seq<Seq<u8>>| #[trigger] self.consistent(tr) implies old(self).consistent(tr) by {}
            assert(sources@ == sources_spec(old(self).spec_thresholds(), old(self).spec_run_id(), be_u32_at(packet@, 12), old(self).spec_k()));
        }
        let ghost dat = data@;
        proof {
            assert forall|tr: Seq<Seq<u8>>, b: int|
                #![trigger self.consistent(tr), dat[b]]
                self.consistent(tr) && 0 <= b < bs implies dat[b] == (payload_byte(packet@, b) ^ xor_seq(
                    tr,
                    sources@,
                    b,
                )) ^ xor_seq(tr, unknown@, b) by {
                assert(data@[b] == (payload_byte(packet@, b) ^ xor_seq(tr, sources@.take(sources@.len() as int), b))
                    ^ xor_seq(tr, unknown@, b));
            }
        }
        if unknown.len() == 0 {
            proof {
                if old(self).touches_unknown(packet@) {
                    let a = choose|a: int| 0 <= a < sources@.len() && (#[trigger] old(self).blocks_view()[sources@[a] as int]) is None;
                    assert(self.blocks_view()[sources@[a] as int] is Some);
                }
            }
            return self.decoded_count == self.k;
        }
        if unknown.len() == 1 {
            let idx = unknown[0];
            assert(self.blocks_view()[idx as int] is None);
            let ghost before = self.blocks_view();
            proof {
                let u = unknown@;
                assert(u.drop_last() =~= Seq::<usize>::empty());
                assert forall|tr: Seq<Seq<u8>>| #[trigger] old(self).consistent(tr) && old(self).honest_for(packet@, tr)
                    implies data@ =~= tr[idx as int] by {
                    assert(self.consistent(tr));
                    assert forall|b: int| 0 <= b < data@.len() implies data@[b] == tr[idx as int][b] by {
                        assert(data@[b] == xor_seq(tr, u, b));
                        assert(xor_seq(tr, u, b) == xor_seq(tr, u.drop_last(), b) ^ tr[u.last() as int][b]);
                        lemma_xor_laws(tr[idx as int][b], 0, 0);
                    }
                }
            }
            let ghost pre = *self;
            self.recover(idx, data);
            assert(forall|i: int|
                0 <= i < k && (#[trigger] before[i]) is Some ==> self.blocks_view()[i] == before[i]);
            let ghost mid = *self;
            assert(mid.blocks_view()[idx as int] == Some(dat));
            self.propagate(idx);
            proof {
                lemma_count_bounds(self.blocks_view());
                let u = unknown@;
                assert(u.drop_last() =~= Seq::<usize>::empty());
                assert forall|tr: Seq<Seq<u8>>|
                    #[trigger] self.consistent(tr) && old(self).consistent(tr) && old(self).accepts(packet@)
                        && old(self).touches_unknown(packet@) implies old(self).honest_for(packet@, tr) by {
                    assert(self.blocks_view()[idx as int] == Some(dat));
                    assert(dat == tr[idx as int]);
                    assert(pre.consistent(tr));
                    assert forall|b: int| 0 <= b < old(self).spec_block_size() implies #[trigger] payload_byte(packet@, b)
                        == xor_seq(tr, sources@, b) by {
                        assert(dat[b] == (payload_byte(packet@, b) ^ xor_seq(tr, sources@, b)) ^ xor_seq(tr, u, b));
                        assert(xor_seq(tr, u, b) == xor_seq(tr, u.drop_last(), b) ^ tr[u.last() as int][b]);
                        lemma_xor_laws(tr[idx as int][b], 0, 0);
                        lemma_xor_cancel(payload_byte(packet@, b), xor_seq(tr, sources@, b), tr[idx as int][b]);
                    }
                }
            }
        } else {
            let pos = self.pending.len();
            let id = self.next_id;
            self.next_id = self.next_id.wrapping_add(1);
            let ghost refs0 = self.block_refs@;
            let ghost pend0 = self.pending@;
            let mut a: usize = 0;
            while a < unknown.len()
                invariant
                    self.shape(),
                    self.k == k,
                    self.block_size == bs,
                    self.run_id == old(self).run_id,
                    self.thresholds == old(self).thresholds,
                    self.seen@ == old(self).seen@.insert(seq_num),
                    self.blocks == old(self).blocks,
                    self.decoded_count == old(self).decoded_count,
                    self.pending == old(self).pending,
                    self.pending@ == pend0,
                    pos == pend0.len(),
                    refs0.len() == k,
                    a <= unknown@.len(),
                    unknown@.no_duplicates(),
                    forall|b: int| 0 <= b < unknown@.len() ==> (#[trigger] unknown@[b]) < k,
                    forall|i: int|
                        0 <= i < k ==> #[trigger] self.block_refs@[i]@ == if unknown@.take(a as int).contains(
                            i as usize,
                        ) {
                            refs0[i]@.push(pos)
                        } else {
                            refs0[i]@
                        },
                decreases unknown.len() - a,
            {
                let s = unknown[a];
                proof {
                    if unknown@.take(a as int).contains(s) {
                        let w = choose|w: int| 0 <= w < a && unknown@.take(a as int)[w] == s;
                        assert(unknown@[w] == unknown@[a as int]);
                    }
                }
                let ghost before = self.block_refs@;
                self.block_refs[s].push(pos);
                proof {
                    assert(unknown@.take(a as int + 1) =~= unknown@.take(a as int).push(s));
                    assert forall|i: int| 0 <= i < k implies #[trigger] self.block_refs@[i]@ == if unknown@.take(
                        a as int + 1,
                    ).contains(i as usize) {
                        refs0[i]@.push(pos)
                    } else {
                        refs0[i]@
                    } by {
                        lemma_push_contains(unknown@.take(a as int), s, i as usize);
                        assert(!unknown@.take(a as int).contains(s));
                        if i != s {
                            assert(self.block_refs@[i] == before[i]);
                        }
                    }
                }
                a = a + 1;
            }
            assert(unknown@.take(unknown@.len() as int) =~= unknown@);
            self.id_to_pos.insert(id, pos);
            self.pos_to_id.push(id);
            let ghost unk = unknown@;
            let ghost dat = data@;
            let ghost mid = *self;
            self.pending.push(Pending { unknown, data });
            proof {
                assert forall|tr: Seq<Seq<u8>>| #[trigger] old(self).consistent(tr) && old(self).honest_for(packet@, tr)
                    implies self.consistent(tr) by {
                    assert forall|p: int, b: int|
                        0 <= p < self.pending@.len() && 0 <= b < self.block_size implies #[trigger] self.pending@[p].data@[b]
                            == xor_seq(tr, self.pending@[p].unknown@, b) by {
                        if p == pos {
                            assert(dat[b] == xor_seq(tr, unk, b));
                        } else {
                            assert(self.pending@[p] == old(self).pending@[p]);
                        }
                    }
                }
                let np = self.pending@;
                let nr = self.block_refs@;
                assert(np[pos as int].unknown@ == unk);
                assert forall|p: int, b: int| 0 <= p < np.len() && 0 <= b < np[p].unknown@.len() implies {
                    let x = #[trigger] np[p].unknown@[b];
                    x < k && nr[x as int]@.contains(p as usize)
                } by {
                    let x = np[p].unknown@[b];
                    if p == pos {
                        assert(unk.contains(x));
                        assert(nr[x as int]@ == refs0[x as int]@.push(pos));
                        lemma_push_contains(refs0[x as int]@, pos, pos);
                    } else {
                        assert(pend0[p].unknown@[b] == x);
                        assert(refs0[x as int]@.contains(p as usize));
                        lemma_push_contains(refs0[x as int]@, pos, p as usize);
                    }
                }
                assert forall|i: int, t: int| 0 <= i < nr.len() && 0 <= t < nr[i]@.len() implies {
                    let p = #[trigger] nr[i]@[t];
                    p < np.len() && np[p as int].unknown@.contains(i as usize)
                } by {
                    if t < refs0[i]@.len() {
                        assert(nr[i]@[t] == refs0[i]@[t]);
                        assert(np[refs0[i]@[t] as int] == pend0[refs0[i]@[t] as int]);
                    } else {
                        assert(unk.contains(i as usize));
                    }
                }
                assert forall|i: int| 0 <= i < nr.len() implies (#[trigger] nr[i])@.no_duplicates() by {
                    if unk.contains(i as usize) {
                        if refs0[i]@.contains(pos) {
                            let w = choose|w: int| 0 <= w < refs0[i]@.len() && refs0[i]@[w] == pos;
                        }
                        assert forall|c: int, d: int| 0 <= c < d < nr[i]@.len() implies nr[i]@[c] != nr[i]@[d] by {
                            if d == refs0[i]@.len() {
                                assert(refs0[i]@[c] < pos);
                            } else {
                                assert(refs0[i]@[c] != refs0[i]@[d]);
                            }
                        }
                    }
                }
                assert forall|p: int, b: int| 0 <= p < np.len() && 0 <= b < np[p].unknown@.len() implies {
                    let x = #[trigger] np[p].unknown@[b];
                    self.blocks_view()[x as int] is None || Seq::<usize>::empty().contains(x) || x == -1
                } by {
                    if p != pos {
                        assert(pend0[p].unknown@[b] == np[p].unknown@[b]);
                    }
                }
                assert(self.graph(Seq::empty(), -1, -1));
                assert forall|tr: Seq<Seq<u8>>|
                    #[trigger] self.consistent(tr) && old(self).consistent(tr) && old(self).accepts(packet@)
                        && old(self).touches_unknown(packet@) implies old(self).honest_for(packet@, tr) by {
                    assert(mid.consistent(tr));
                    assert forall|b: int| 0 <= b < old(self).spec_block_size() implies #[trigger] payload_byte(packet@, b)
                        == xor_seq(tr, sources@, b) by {
                        assert(self.pending@[pos as int].data@[b] == xor_seq(tr, unk, b));
                        assert(dat[b] == (payload_byte(packet@, b) ^ xor_seq(tr, sources@, b)) ^ xor_seq(tr, unk, b));
                        lemma_xor_cancel(payload_byte(packet@, b), xor_seq(tr, sources@, b), xor_seq(tr, unk, b));
                    }
                }
            }
        }
        self.decoded_count == self.k
    }

    /// Records block `idx` as recovered with contents `data`.
    fn recover(&mut self, idx: usize, data: Vec<u8>)
        requires
            old(self).shape(),
            idx < old(self).k,
            old(self).blocks_view()[idx as int] is None,
            data@.len() == old(self).block_size,
        ensures
            final(self).shape(),
            final(self).k == old(self).k,
            final(self).block_size == old(self).block_size,
            final(self).run_id == old(self).run_id,
            final(self).thresholds == old(self).thresholds,
            final(self).pending == old(self).pending,
            final(self).block_refs == old(self).block_refs,
            final(self).seen == old(self).seen,
            final(self).blocks_view() == old(self).blocks_view().update(idx as int, Some(data@)),
            final(self).decoded_count == old(self).decoded_count + 1,
            forall|w: Seq<usize>, e: int, sk: int|
                old(self).graph(w, e, sk) ==> #[trigger] final(self).graph(w.push(idx), e, sk),
            forall|t: Seq<Seq<u8>>|
                #[trigger] old(self).consistent(t) && data@ == t[idx as int] ==> final(self).consistent(t),
    {
        proof {
            lemma_count_bounds(self.blocks_view());
            if self.decoded_count == self.k {
                assert(self.blocks_view()[idx as int] is Some);
            }
            lemma_count_fill(self.blocks_view(), idx as int, data@);
        }
        let ghost bv = self.blocks_view();
        let ghost pre = *self;
        self.blocks.set(idx, Some(data));
        self.decoded_count = self.decoded_count + 1;
        assert(self.blocks_view() =~= bv.update(idx as int, Some(data@)));
        assert forall|t: Seq<Seq<u8>>| #[trigger] pre.consistent(t) && data@ == t[idx as int] implies self.consistent(t) by {
            assert forall|i: int|
                0 <= i < self.k && (#[trigger] self.blocks_view()[i]) is Some implies self.blocks_view()[i]->0
                    == t[i] by {
                if i != idx {
                    assert(bv[i] is Some);
                }
            }
        }
        assert forall|w: Seq<usize>, e: int, sk: int| pre.graph(w, e, sk) implies #[trigger] self.graph(
            w.push(idx),
            e,
            sk,
        ) by {
            assert forall|p: int, a: int|
                0 <= p < self.pending@.len() && 0 <= a < self.pending@[p].unknown@.len() implies {
                    let x = #[trigger] self.pending@[p].unknown@[a];
                    self.blocks_view()[x as int] is None || w.push(idx).contains(x) || x == e
                } by {
                let x = self.pending@[p].unknown@[a];
                lemma_push_contains(w, idx, x);
            }
        }
    }

    /// After the last reference to `blk` is consumed, no equation mentions it.
    proof fn lemma_release(&self, waiting: Seq<usize>, blk: int)
        requires
            self.shape(),
            self.graph(waiting, blk, -1),
            0 <= blk < self.k ==> self.block_refs@[blk]@.len() == 0,
        ensures
            self.graph(waiting, -1, -1),
    {
        assert forall|p: int, a: int|
            0 <= p < self.pending@.len() && 0 <= a < self.pending@[p].unknown@.len() implies {
                let x = #[trigger] self.pending@[p].unknown@[a];
                self.blocks_view()[x as int] is None || waiting.contains(x) || x == -1
            } by {
            let x = self.pending@[p].unknown@[a];
            assert(x < self.k);
            if x == blk {
                assert(self.block_refs@[blk]@.contains(p as usize));
            }
        }
    }

    /// Peels every equation that the recovery of `start` makes solvable,
    /// and every one that those recoveries make solvable in turn.
    fn propagate(&mut self, start: usize)
        requires
            old(self).shape(),
            old(self).graph(Seq::empty().push(start), -1, -1),
            start < old(self).k,
            old(self).blocks_view()[start as int] is Some,
        ensures
            final(self).wf(),
            final(self).pending_count() <= old(self).pending_count(),
            forall|t: Seq<Seq<u8>>| #[trigger] old(self).consistent(t) ==> final(self).consistent(t),
            final(self).k == old(self).k,
            final(self).block_size == old(self).block_size,
            final(self).run_id == old(self).run_id,
            final(self).thresholds == old(self).thresholds,
            final(self).seen == old(self).seen,
            final(self).decoded_count >= old(self).decoded_count,
            forall|i: int|
                0 <= i < old(self).k && (#[trigger] old(self).blocks_view()[i]) is Some
                    ==> final(self).blocks_view()[i] == old(self).blocks_view()[i],
    {
        let mut queue: Vec<usize> = Vec::new();
        queue.push(start);
        proof {
            lemma_count_bounds(self.blocks_view());
            assert(queue@ =~= Seq::empty().push(start));
        }
        while queue.len() > 0
            invariant
                self.shape(),
                self.graph(queue@, -1, -1),
                self.pending@.len() <= old(self).pending@.len(),
                forall|t: Seq<Seq<u8>>| #[trigger] old(self).consistent(t) ==> self.consistent(t),
                forall|a: int| 0 <= a < queue@.len() ==> (#[trigger] queue@[a]) < self.k && self.blocks_view()[queue@[a] as int] is Some,
                self.k == old(self).k,
                self.block_size == old(self).block_size,
                self.run_id == old(self).run_id,
                self.thresholds == old(self).thresholds,
                self.seen == old(self).seen,
                self.decoded_count >= old(self).decoded_count,
                self.decoded_count <= self.k,
                forall|i: int|
                    0 <= i < old(self).k && (#[trigger] old(self).blocks_view()[i]) is Some
                        ==> self.blocks_view()[i] == old(self).blocks_view()[i],
            decreases 2 * (self.k - self.decoded_count) + queue@.len(),
        {
            let ghost m0 = 2 * (self.k - self.decoded_count) + queue@.len();
            let ghost q0 = queue@;
            let blk = match queue.pop() {
                Some(b) => b,
                None => start,
            };
            proof {
                assert forall|p: int, a: int|
                    0 <= p < self.pending@.len() && 0 <= a < self.pending@[p].unknown@.len() implies {
                        let x = #[trigger] self.pending@[p].unknown@[a];
                        self.blocks_view()[x as int] is None || queue@.contains(x) || x == blk
                    } by {
                    let x = self.pending@[p].unknown@[a];
                    lemma_drop_last_contains(q0, x);
                    assert(queue@ == q0.drop_last());
                }
            }
            if blk < self.k {
                while self.block_refs[blk].len() > 0
                    invariant
                        self.shape(),
                        self.graph(queue@, blk as int, -1),
                        self.pending@.len() <= old(self).pending@.len(),
                        forall|t: Seq<Seq<u8>>| #[trigger] old(self).consistent(t) ==> self.consistent(t),
                        forall|a: int| 0 <= a < queue@.len() ==> (#[trigger] queue@[a]) < self.k && self.blocks_view()[queue@[a] as int] is Some,
                        self.blocks_view()[blk as int] is Some,
                        blk < self.k,
                        self.k == old(self).k,
                        self.block_size == old(self).block_size,
                        self.run_id == old(self).run_id,
                        self.thresholds == old(self).thresholds,
                        self.seen == old(self).seen,
                        self.decoded_count >= old(self).decoded_count,
                        self.decoded_count <= self.k,
                        2 * (self.k - self.decoded_count) + queue@.len() < m0,
                        forall|i: int|
                            0 <= i < old(self).k && (#[trigger] old(self).blocks_view()[i]) is Some
                                ==> self.blocks_view()[i] == old(self).blocks_view()[i],
                    decreases self.block_refs@[blk as int]@.len(),
                {
                    let ghost s0 = *self;
                    let ghost refs_len = self.block_refs@[blk as int]@.len();
                    let ghost r0 = self.block_refs@[blk as int]@;
                    let ghost pend0 = self.pending@;
                    let ghost refs0 = self.block_refs@;
                    let pos = match self.block_refs[blk].pop() {
                        Some(p) => p,
                        None => 0,
                    };
                    proof {
                        assert(pos == r0[r0.len() - 1]);
                        assert(pos < pend0.len());
                    }
                    if pos < self.pending.len() {
                        let ghost d0 = self.pending@[pos as int].data@;
                        match &self.blocks[blk] {
                            Some(known) => {
                                xor_into(&mut self.pending[pos].data, known);
                                proof {
                                    assert(slot_view(self.blocks@[blk as int]) == Some(known@));
                                    assert(known@ == s0.blocks_view()[blk as int]->0);
                                }
                            },
                            None => {
                                proof {
                                    assert(slot_view(self.blocks@[blk as int]) is None);
                                }
                            },
                        }
                        assert(forall|j: int| 0 <= j < self.block_size ==> #[trigger] self.pending@[pos as int].data@[j]
                            == d0[j] ^ s0.blocks_view()[blk as int]->0[j]);
                        remove_value(&mut self.pending[pos].unknown, blk);
                        proof {
                            self.lemma_after_detach(queue@, blk, pos, pend0, refs0);
                            assert(pend0[pos as int].unknown@.contains(blk)) by {
                                assert(r0.contains(pos)) by {
                                    assert(r0[r0.len() - 1] == pos);
                                }
                                let w = choose|w: int| 0 <= w < r0.len() && r0[w] == pos;
                                assert(refs0[blk as int]@[w] == pos);
                            }
                            assert forall|t: Seq<Seq<u8>>| #[trigger] s0.consistent(t) implies self.consistent(t) by {
                                assert forall|p: int, j: int|
                                    0 <= p < self.pending@.len() && 0 <= j < self.block_size implies #[trigger] self.pending@[p].data@[j]
                                        == xor_seq(t, self.pending@[p].unknown@, j) by {
                                    if p == pos {
                                        let u0 = pend0[pos as int].unknown@;
                                        assert(d0[j] == xor_seq(t, u0, j));
                                        let f = u0.filter(|y: usize| y != blk);
                                        lemma_xor_remove(t, u0, blk, j);
                                        assert(s0.blocks_view()[blk as int]->0 == t[blk as int]);
                                        lemma_xor_laws(xor_seq(t, f, j), t[blk as int][j], t[blk as int][j]);
                                        lemma_xor_laws(t[blk as int][j], 0, 0);
                                        lemma_xor_laws(xor_seq(t, f, j), 0, 0);
                                        assert(self.pending@[p].unknown@ == f);
                                    } else {
                                        assert(self.pending@[p] == pend0[p]);
                                    }
                                }
                            }
                        }
                        let remaining = self.pending[pos].unknown.len();
                        if remaining == 0 {
                            self.remove_pending(pos, Ghost(queue@), Ghost(blk as int));
                        } else if remaining == 1 {
                            let idx = self.pending[pos].unknown[0];
                            let data = copy_bytes(&self.pending[pos].data);
                            proof {
                                let u = self.pending@[pos as int].unknown@;
                                assert forall|t: Seq<Seq<u8>>| #[trigger] s0.consistent(t) implies data@ =~= t[idx as int] by {
                                    assert(idx < self.k);
                                    assert(self.consistent(t));
                                    assert(u.last() == idx);
                                    assert(u.drop_last() =~= Seq::<usize>::empty());
                                    assert forall|j: int| 0 <= j < data@.len() implies data@[j] == t[idx as int][j] by {
                                        assert(data@[j] == self.pending@[pos as int].data@[j]);
                                        assert(j < self.block_size);
                                        assert(self.pending@[pos as int].data@[j] == xor_seq(t, u, j));
                                        assert(xor_seq(t, u, j) == xor_seq(t, u.drop_last(), j) ^ t[u.last() as int][j]);
                                        assert(xor_seq(t, u.drop_last(), j) == 0);
                                        lemma_xor_laws(t[idx as int][j], 0, 0);
                                    }
                                }
                            }
                            let ghost s3 = *self;
                            self.remove_pending(pos, Ghost(queue@), Ghost(blk as int));
                            if idx < self.k && self.blocks[idx].is_none() {
                                assert(self.blocks_view()[idx as int] is None);
                                self.recover(idx, data);
                                queue.push(idx);
                                proof {
                                    lemma_count_bounds(self.blocks_view());
                                }
                            }
                        }
                    }
                    assert(self.block_refs@[blk as int]@.len() < refs_len);
                }
            }
            proof {
                self.lemma_release(queue@, blk as int);
            }
        }
    }

    /// The state right after reference `pos` was taken off `blk`'s list and
    /// `blk` removed from equation `pos`.
    proof fn lemma_after_detach(
        &self,
        waiting: Seq<usize>,
        blk: usize,
        pos: usize,
        pend0: Seq<Pending>,
        refs0: Seq<Vec<usize>>,
    )
        requires
            blk < self.k,
            pos < pend0.len(),
            pend0.len() <= usize::MAX,
            refs0.len() == self.k,
            refs0[blk as int]@.len() > 0,
            pos == refs0[blk as int]@.last(),
            eqs_registered(pend0, refs0, self.k as int),
            refs_point_back(pend0, refs0),
            no_repeats(pend0, refs0),
            forall|p: int|
                0 <= p < pend0.len() && p != -1 ==> (#[trigger] pend0[p]).unknown@.len() >= 2,
            forall|p: int, a: int|
                0 <= p < pend0.len() && 0 <= a < pend0[p].unknown@.len() ==> {
                    let x = #[trigger] pend0[p].unknown@[a];
                    self.blocks_view()[x as int] is None || waiting.contains(x) || x == blk
                },
            self.block_refs@ == refs0.update(blk as int, self.block_refs@[blk as int]),
            self.block_refs@[blk as int]@ == refs0[blk as int]@.drop_last(),
            self.pending@.len() == pend0.len(),
            forall|p: int| 0 <= p < pend0.len() && p != pos ==> #[trigger] self.pending@[p] == pend0[p],
            forall|y: usize|
                #[trigger] self.pending@[pos as int].unknown@.contains(y) <==> pend0[pos as int].unknown@.contains(y)
                    && y != blk,
            pend0[pos as int].unknown@.no_duplicates() ==> self.pending@[pos as int].unknown@.no_duplicates(),
        ensures
            self.graph(waiting, blk as int, pos as int),
    {
        let r0 = refs0[blk as int]@;
        assert(r0.contains(pos)) by {
            assert(r0[r0.len() - 1] == pos);
        }
        assert(r0.no_duplicates());
        assert forall|p: int, a: int|
            0 <= p < self.pending@.len() && 0 <= a < self.pending@[p].unknown@.len() implies {
                let x = #[trigger] self.pending@[p].unknown@[a];
                x < self.k && self.block_refs@[x as int]@.contains(p as usize)
            } by {
            let x = self.pending@[p].unknown@[a];
            if p == pos {
                assert(self.pending@[p].unknown@.contains(x));
                let w = choose|w: int| 0 <= w < pend0[p].unknown@.len() && pend0[p].unknown@[w] == x;
                assert(pend0[p].unknown@[w] == x);
            } else {
                assert(pend0[p].unknown@[a] == x);
                if x == blk {
                    assert(r0.contains(p as usize));
                    let t = choose|t: int| 0 <= t < r0.len() && r0[t] == p as usize;
                    assert(r0[r0.len() - 1] == pos);
                    assert(r0[t] == p as usize);
                    assert(p as usize != pos);
                    assert(t != r0.len() - 1);
                    assert(self.block_refs@[blk as int]@[t] == p as usize);
                }
            }
        }
        assert forall|i: int, t: int|
            0 <= i < self.block_refs@.len() && 0 <= t < self.block_refs@[i]@.len() implies {
                let p = #[trigger] self.block_refs@[i]@[t];
                p < self.pending@.len() && self.pending@[p as int].unknown@.contains(i as usize)
            } by {
            let p = self.block_refs@[i]@[t];
            if i == blk {
                assert(r0[t] == p);
                assert(t != r0.len() - 1);
                assert(p != pos);
            } else {
                assert(refs0[i]@[t] == p);
                if p == pos {
                    assert(pend0[pos as int].unknown@.contains(i as usize));
                }
            }
        }
        assert forall|i: int| 0 <= i < self.block_refs@.len() implies (#[trigger] self.block_refs@[i])@.no_duplicates() by {
            if i == blk {
                assert forall|a: int, b: int| 0 <= a < b < r0.len() - 1 implies r0.drop_last()[a] != r0.drop_last()[b] by {
                    assert(r0[a] != r0[b]);
                }
            }
        }
        assert forall|p: int, a: int|
            0 <= p < self.pending@.len() && 0 <= a < self.pending@[p].unknown@.len() implies {
                let x = #[trigger] self.pending@[p].unknown@[a];
                self.blocks_view()[x as int] is None || waiting.contains(x) || x == blk
            } by {
            let x = self.pending@[p].unknown@[a];
            if p == pos {
                assert(self.pending@[p].unknown@.contains(x));
                let w = choose|w: int| 0 <= w < pend0[p].unknown@.len() && pend0[p].unknown@[w] == x;
            } else {
                assert(pend0[p].unknown@[a] == x);
            }
        }
    }

    /// True when all source blocks have been recovered.
    pub fn is_done(&self) -> (r: bool)
        ensures
            r == self.is_done_spec(),
    {
        self.decoded_count == self.k
    }

    /// Number of blocks recovered so far; never more than `block_count()`.
    pub fn decoded_count(&self) -> (r: u32)
        requires
            self.wf(),
        ensures
            r as int == self.spec_decoded(),
            self.spec_decoded() == count_known(self.blocks_view()),
            self.spec_decoded() <= self.spec_k() <= u32::MAX,
            self.blocks_view().len() == self.spec_k(),
    {
        proof {
            lemma_count_bounds(self.blocks_view());
        }
        self.decoded_count as u32
    }

    /// Number of blocks the session needs.
    pub fn block_count(&self) -> (r: u32)
        requires
            self.wf(),
        ensures
            r as int == self.spec_k(),
            self.blocks_view().len() == self.spec_k(),
    {
        self.k as u32
    }
}

pub open spec fn concat(s: Seq<Seq<u8>>) -> Seq<u8>
    decreases s.len(),
{
    if s.len() == 0 {
        Seq::empty()
    } else {
        concat(s.drop_last()) + s.last()
    }
}

pub proof fn lemma_joined_concat(s: Seq<Seq<u8>>)
    ensures
        joined(s.map_values(|b: Seq<u8>| Some(b))) == concat(s),
    decreases s.len(),
{
    if s.len() > 0 {
        lemma_joined_concat(s.drop_last());
        assert(s.map_values(|b: Seq<u8>| Some(b)).drop_last() =~= s.drop_last().map_values(|b: Seq<u8>| Some(b)));
    }
}

/// Blocks of `bs` bytes: byte `j` of block `i` sits at `i * bs + j`.
pub proof fn lemma_concat_index(s: Seq<Seq<u8>>, bs: int, i: int, j: int)
    requires
        bs >= 0,
        forall|a: int| 0 <= a < s.len() ==> (#[trigger] s[a]).len() == bs,
        0 <= i < s.len(),
        0 <= j < bs,
    ensures
        concat(s).len() == s.len() * bs,
        concat(s)[i * bs + j] == s[i][j],
    decreases s.len(),
{
    let n = s.len() as int;
    let d = s.drop_last();
    if i < n - 1 {
        lemma_concat_index(d, bs, i, j);
    } else if n > 1 {
        lemma_concat_index(d, bs, 0, j);
    } else {
        lemma_concat_len(d, bs);
    }
    lemma_concat_len(d, bs);
    assert(concat(d).len() == (n - 1) * bs);
    assert((n - 1) * bs + bs == n * bs) by (nonlinear_arith);
    if i < n - 1 {
        assert((i + 1) * bs <= (n - 1) * bs) by (nonlinear_arith)
            requires
                i + 1 <= n - 1,
                bs >= 0,
        ;
        assert((i + 1) * bs == i * bs + bs) by (nonlinear_arith);
    } else {
        assert(i * bs == (n - 1) * bs);
    }
}

pub proof fn lemma_concat_len(s: Seq<Seq<u8>>, bs: int)
    requires
        forall|a: int| 0 <= a < s.len() ==> (#[trigger] s[a]).len() == bs,
    ensures
        concat(s).len() == s.len() * bs,
    decreases s.len(),
{
    if s.len() > 0 {
        lemma_concat_len(s.drop_last(), bs);
        assert((s.len() - 1) * bs + bs == s.len() * bs) by (nonlinear_arith);
    }
}

proof fn lemma_push_contains(s: Seq<usize>, v: usize, x: usize)
    ensures
        s.push(v).contains(x) <==> s.contains(x) || x == v,
{
    if s.push(v).contains(x) && x != v {
        let w = choose|w: int| 0 <= w < s.len() + 1 && s.push(v)[w] == x;
        assert(s[w] == x);
    }
    if s.contains(x) {
        let w = choose|w: int| 0 <= w < s.len() && s[w] == x;
        assert(s.push(v)[w] == x);
    }
    assert(s.push(v)[s.len() as int] == v);
}

proof fn lemma_drop_last_contains(s: Seq<usize>, x: usize)
    requires
        s.len() > 0,
    ensures
        s.contains(x) <==> s.drop_last().contains(x) || x == s.last(),
{
    lemma_push_contains(s.drop_last(), s.last(), x);
    assert(s.drop_last().push(s.last()) =~= s);
}

pub proof fn lemma_count_none(s: Seq<Option<Seq<u8>>>)
    requires
        forall|i: int| 0 <= i < s.len() ==> (#[trigger] s[i]) is None,
    ensures
        count_known(s) == 0,
    decreases s.len(),
{
    if s.len() > 0 {
        assert(s.last() is None);
        assert forall|i: int| 0 <= i < s.drop_last().len() implies (#[trigger] s.drop_last()[i]) is None by {
            assert(s.drop_last()[i] == s[i]);
        }
        lemma_count_none(s.drop_last());
    }
}

} // verus!
