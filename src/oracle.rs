//! Deterministic source selection shared by the encoder and the decoder.
use vstd::prelude::*;

verus! {

/// Multiplier applied to the session identifier when seeding.
pub const SEED_RUN_MUL: u64 = 0x9e37_79b9_7f4a_7c15;

/// Multiplier applied to the packet sequence number when seeding.
pub const SEED_SEQ_MUL: u64 = 0x6c62_272e_07bb_0142;

/// Substitute seed used when the mixed seed is zero (xorshift would stay at zero).
pub const SEED_FALLBACK: u64 = 0xcafe_f00d_dead_beef;

/// One step of the 64-bit xorshift generator with shifts 13, 7, 17.
pub open spec fn xorshift_spec(s: u64) -> u64 {
    let a = s ^ (s << 13u64);
    let b = a ^ (a >> 7u64);
    b ^ (b << 17u64)
}

/// The generator state for packet `seq_num` of session `run_id`.
pub open spec fn seed_spec(run_id: u32, seq_num: u32) -> u64 {
    let s = vstd::wrapping::u64_specs::wrapping_mul(run_id as u64, SEED_RUN_MUL)
        ^ vstd::wrapping::u64_specs::wrapping_mul(seq_num as u64, SEED_SEQ_MUL);
    if s == 0 { SEED_FALLBACK } else { s }
}

/// Advances the generator and returns the new state, which is also the sample.
pub fn xorshift64(state: &mut u64) -> (r: u64)
    ensures
        r == xorshift_spec(*old(state)),
        *final(state) == r,
{
    *state = *state ^ (*state << 13u64);
    *state = *state ^ (*state >> 7u64);
    *state = *state ^ (*state << 17u64);
    *state
}

/// Seeds the generator from the session identifier and the sequence number.
pub fn prng_seed(run_id: u32, seq_num: u32) -> (r: u64)
    ensures
        r == seed_spec(run_id, seq_num),
        r != 0,
{
    let s = (run_id as u64).wrapping_mul(SEED_RUN_MUL) ^ (seq_num as u64).wrapping_mul(SEED_SEQ_MUL);
    if s == 0 {
        SEED_FALLBACK
    } else {
        s
    }
}


/// `uniform(n)`: a draw reduced modulo `n`; for `n == 0` no draw is made.
pub fn uniform_usize(rng: &mut u64, n: usize) -> (r: usize)
    ensures
        n == 0 ==> r == 0 && *final(rng) == *old(rng),
        n > 0 ==> *final(rng) == xorshift_spec(*old(rng)) && r as int == (xorshift_spec(
            *old(rng),
        ) % (n as u64)) as int,
        n > 0 ==> r < n,
{
    if n == 0 {
        return 0;
    }
    (xorshift64(rng) % (n as u64)) as usize
}

/// Index of the first threshold at or after `i` that covers `draw`
/// (`draw <= th[j]`), or `th.len()` when there is none.
pub open spec fn first_cover(th: Seq<u64>, draw: u64, i: int) -> int
    decreases th.len() - i,
{
    if i >= th.len() || i < 0 {
        th.len() as int
    } else if draw <= th[i] {
        i
    } else {
        first_cover(th, draw, i + 1)
    }
}

/// The degree that `draw` selects from the cumulative threshold table `th`
/// for `k` source blocks: one more than the position of the first covering
/// threshold, capped at `k`; `k` when no threshold covers the draw.
pub open spec fn degree_of(th: Seq<u64>, draw: u64, k: int) -> int {
    let p = first_cover(th, draw, 0);
    if p < th.len() && p + 1 < k {
        p + 1
    } else {
        k
    }
}

/// Looks up the degree that `draw` selects from the threshold table.
///
/// `thresholds[i]` is the largest draw that the cumulative distribution of
/// the degrees `1..=i+1` still covers, so the lookup is an integer form of
/// "smallest `i` with `CDF(i) >= u`".
pub fn degree_from_draw(thresholds: &Vec<u64>, draw: u64, k: usize) -> (r: usize)
    requires
        k >= 1,
    ensures
        r as int == degree_of(thresholds@, draw, k as int),
        1 <= r <= k,
{
    let mut i: usize = 0;
    while i < thresholds.len()
        invariant
            0 <= i <= thresholds.len(),
            k >= 1,
            first_cover(thresholds@, draw, 0) == first_cover(thresholds@, draw, i as int),
        decreases thresholds.len() - i,
    {
        if draw <= thresholds[i] {
            if i + 1 < k {
                return i + 1;
            } else {
                return k;
            }
        }
        i = i + 1;
    }
    k
}

/// The degree of a packet, and the generator state after drawing it.
/// A single block needs no draw.
pub open spec fn degree_spec(th: Seq<u64>, s: u64, k: int) -> (int, u64) {
    if k == 1 {
        (1, s)
    } else {
        let s1 = xorshift_spec(s);
        (degree_of(th, s1, k), s1)
    }
}

/// Draws the degree of a packet from the Robust Soliton distribution,
/// given as a threshold table (see `degree_from_draw`).
pub fn sample_degree(rng: &mut u64, k: usize, thresholds: &Vec<u64>) -> (r: usize)
    requires
        k >= 1,
    ensures
        (r as int, *final(rng)) == degree_spec(thresholds@, *old(rng), k as int),
        1 <= r <= k,
{
    if k == 1 {
        return 1;
    }
    let draw = xorshift64(rng);
    degree_from_draw(thresholds, draw, k)
}

/// The identity arrangement `0, 1, ..., k-1`.
pub open spec fn identity_seq(k: int) -> Seq<usize> {
    Seq::new(k as nat, |i: int| i as usize)
}

/// Steps `t..degree` of a partial Fisher-Yates shuffle of `perm` driven by
/// the generator state `s`: step `t` swaps positions `t` and
/// `t + uniform(len - t)`. Returns the arrangement and the final state.
pub open spec fn shuffle_from(perm: Seq<usize>, s: u64, t: int, degree: int) -> (Seq<usize>, u64)
    decreases degree - t,
{
    if t < 0 || t >= degree || t >= perm.len() {
        (perm, s)
    } else {
        let s1 = xorshift_spec(s);
        let j = t + (s1 % ((perm.len() - t) as u64)) as int;
        shuffle_from(perm.update(t, perm[j]).update(j, perm[t]), s1, t + 1, degree)
    }
}

/// The `degree` source indices chosen out of `0..k` from state `s`.
pub open spec fn select_spec(s: u64, k: int, degree: int) -> Seq<usize> {
    shuffle_from(identity_seq(k), s, 0, degree).0.take(degree)
}

/// Every element is below `k` and no element occurs twice.
pub open spec fn distinct_below(v: Seq<usize>, k: int) -> bool {
    &&& forall|a: int| 0 <= a < v.len() ==> (#[trigger] v[a]) < k
    &&& forall|a: int, b: int| 0 <= a < b < v.len() ==> v[a] != v[b]
}

/// Chooses `degree` distinct block indices out of `0..k` by a partial
/// Fisher-Yates shuffle.
pub fn select_sources(rng: &mut u64, k: usize, degree: usize) -> (r: Vec<usize>)
    requires
        degree <= k,
    ensures
        r@ == select_spec(*old(rng), k as int, degree as int),
        *final(rng) == shuffle_from(identity_seq(k as int), *old(rng), 0, degree as int).1,
        r@.len() == degree,
        distinct_below(r@, k as int),
{
    let ghost s0 = *rng;
    let mut indices: Vec<usize> = Vec::with_capacity(k);
    let mut n: usize = 0;
    while n < k
        invariant
            n <= k,
            indices@ == identity_seq(n as int),
        decreases k - n,
    {
        indices.push(n);
        n = n + 1;
        assert(indices@ =~= identity_seq(n as int));
    }
    let mut t: usize = 0;
    while t < degree
        invariant
            t <= degree <= k,
            indices@.len() == k,
            distinct_below(indices@, k as int),
            shuffle_from(indices@, *rng, t as int, degree as int) == shuffle_from(
                identity_seq(k as int),
                s0,
                0,
                degree as int,
            ),
        decreases degree - t,
    {
        let j = t + uniform_usize(rng, k - t);
        let a = indices[t];
        let b = indices[j];
        indices.set(t, b);
        indices.set(j, a);
        t = t + 1;
    }
    let mut out: Vec<usize> = Vec::with_capacity(degree);
    let mut m: usize = 0;
    while m < degree
        invariant
            m <= degree <= k,
            indices@.len() == k,
            out@ == indices@.take(m as int),
        decreases degree - m,
    {
        out.push(indices[m]);
        m = m + 1;
        assert(out@ =~= indices@.take(m as int));
    }
    assert(out@ =~= indices@.take(degree as int));
    out
}

/// The ordered list of source-block indices of packet `seq_num` in session
/// `run_id` for `k` blocks and the degree table `th`.
pub open spec fn sources_spec(th: Seq<u64>, run_id: u32, seq_num: u32, k: int) -> Seq<usize> {
    let (d, s1) = degree_spec(th, seed_spec(run_id, seq_num), k);
    select_spec(s1, k, d)
}

/// Computes the source-block indices of a packet. Pure: both endpoints get
/// the same list for the same arguments.
pub fn packet_sources(run_id: u32, seq_num: u32, k: usize, thresholds: &Vec<u64>) -> (r: Vec<usize>)
    requires
        k >= 1,
    ensures
        r@ == sources_spec(thresholds@, run_id, seq_num, k as int),
        1 <= r@.len() <= k,
        r@.len() == degree_spec(thresholds@, seed_spec(run_id, seq_num), k as int).0,
        distinct_below(r@, k as int),
{
    let mut rng = prng_seed(run_id, seq_num);
    let degree = sample_degree(&mut rng, k, thresholds);
    select_sources(&mut rng, k, degree)
}

} // verus!
