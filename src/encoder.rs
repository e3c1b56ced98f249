//! The streaming encoder: fixed-size source blocks and an endless stream of
//! header-prefixed XOR packets.
use vstd::prelude::*;
use crate::oracle::{packet_sources, sources_spec, distinct_below};
use crate::wire::{push_u32_be, header_spec, HEADER_LEN};

verus! {

/// Number of source blocks for a payload of `len` bytes and block size `bs`:
/// `ceil(len / bs)`, at least one.
pub open spec fn block_count_spec(len: int, bs: int) -> int {
    if len == 0 {
        1
    } else {
        (len + bs - 1) / bs
    }
}

/// Byte `p` of the payload right-padded with zeros.
pub open spec fn padded_byte(data: Seq<u8>, p: int) -> u8 {
    if 0 <= p < data.len() {
        data[p]
    } else {
        0
    }
}

/// Byte `j` of the XOR of the blocks listed in `srcs[0..n]`.
pub open spec fn xor_at(blocks: Seq<Seq<u8>>, srcs: Seq<usize>, n: int, j: int) -> u8
    decreases n,
{
    if n <= 0 {
        0
    } else {
        xor_at(blocks, srcs, n - 1, j) ^ blocks[srcs[n - 1] as int][j]
    }
}

/// The XOR of the listed blocks, `bs` bytes long.
pub open spec fn xor_blocks(blocks: Seq<Seq<u8>>, srcs: Seq<usize>, bs: int) -> Seq<u8> {
    Seq::new(bs as nat, |j: int| xor_at(blocks, srcs, srcs.len() as int, j))
}

/// The number of source blocks for a payload of `len` bytes and block size
/// `block_size` (raised to 1 when zero).
pub fn block_count_for(len: usize, block_size: usize) -> (r: usize)
    requires
        len + block_size < usize::MAX,
    ensures
        r == block_count_spec(len as int, if block_size == 0 { 1 } else { block_size as int }),
        r >= 1,
{
    let bs: usize = if block_size == 0 { 1 } else { block_size };
    if len == 0 {
        1
    } else {
        assert((len + bs - 1) as int / bs as int >= 1) by (nonlinear_arith)
            requires
                len >= 1,
                bs >= 1,
        ;
        (len + bs - 1) / bs
    }
}

/// Produces encoded packets for one payload.
pub struct LTEncoder {
    blocks: Vec<Vec<u8>>,
    block_size: usize,
    original_len: u32,
    run_id: u32,
    seq: u32,
    thresholds: Vec<u64>,
}

impl LTEncoder {
    /// The source blocks as byte sequences.
    pub closed spec fn blocks_view(&self) -> Seq<Seq<u8>> {
        self.blocks@.map_values(|b: Vec<u8>| b@)
    }

    pub closed spec fn spec_block_size(&self) -> int {
        self.block_size as int
    }

    pub closed spec fn spec_original_len(&self) -> u32 {
        self.original_len
    }

    pub closed spec fn spec_run_id(&self) -> u32 {
        self.run_id
    }

    /// Sequence number of the next packet.
    pub closed spec fn spec_seq(&self) -> u32 {
        self.seq
    }

    /// The degree threshold table (see `oracle::degree_from_draw`).
    pub closed spec fn spec_thresholds(&self) -> Seq<u64> {
        self.thresholds@
    }

    /// At least one block; every block is `block_size >= 1` bytes long.
    pub closed spec fn wf(&self) -> bool {
        &&& self.blocks@.len() >= 1
        &&& self.block_size >= 1
        &&& forall|i: int| 0 <= i < self.blocks@.len() ==> (#[trigger] self.blocks@[i])@.len()
            == self.block_size
    }

    /// What the invariant says of the blocks.
    pub proof fn lemma_wf_shape(&self)
        requires
            self.wf(),
        ensures
            self.spec_block_size() >= 1,
            self.blocks_view().len() >= 1,
            forall|i: int|
                0 <= i < self.blocks_view().len() ==> (#[trigger] self.blocks_view()[i]).len()
                    == self.spec_block_size(),
    {
    }

    /// The packet with sequence number `seq`: header, then the XOR of the
    /// source blocks that the oracle selects.
    pub open spec fn packet_spec(&self, seq: u32) -> Seq<u8> {
        let k = self.blocks_view().len() as int;
        header_spec(self.spec_run_id(), #[verifier::truncate] (k as u32), self.spec_original_len(), seq) + xor_blocks(
            self.blocks_view(),
            sources_spec(self.spec_thresholds(), self.spec_run_id(), seq, k),
            self.spec_block_size(),
        )
    }

    /// Splits `data` into zero-padded blocks of `block_size` bytes (raised to
    /// 1 when zero). `thresholds` is the degree table for the resulting block
    /// count, shared with the decoder.
    pub fn new(data: &[u8], block_size: usize, run_id: u32, thresholds: Vec<u64>) -> (r: LTEncoder)
        requires
            data@.len() + block_size < usize::MAX,
        ensures
            r.wf(),
            r.spec_block_size() == if block_size == 0 { 1 } else { block_size as int },
            r.blocks_view().len() == block_count_spec(data@.len() as int, r.spec_block_size()),
            forall|i: int, j: int|
                0 <= i < r.blocks_view().len() && 0 <= j < r.spec_block_size() ==> #[trigger] r.blocks_view()[i][j]
                    == padded_byte(data@, i * r.spec_block_size() + j),
            data@.len() <= r.blocks_view().len() * r.spec_block_size(),
            r.spec_original_len() == (#[verifier::truncate] (data@.len() as u32)),
            r.spec_run_id() == run_id,
            r.spec_seq() == 0,
            r.spec_thresholds() == thresholds@,
    {
        let bs: usize = if block_size == 0 { 1 } else { block_size };
        let len = data.len();
        let k = block_count_for(len, block_size);
        proof {
            if len > 0 {
                vstd::arithmetic::div_mod::lemma_fundamental_div_mod((len + bs - 1) as int, bs as int);
                vstd::arithmetic::div_mod::lemma_mod_pos_bound((len + bs - 1) as int, bs as int);
                assert(k * bs >= len) by (nonlinear_arith)
                    requires
                        (len + bs - 1) as int == bs * ((len + bs - 1) as int / bs as int) + (len + bs - 1) as int % bs as int,
                        ((len + bs - 1) as int % bs as int) < bs,
                        k == (len + bs - 1) as int / bs as int,
                ;
                assert(k * bs <= len + bs - 1) by (nonlinear_arith)
                    requires
                        (len + bs - 1) as int == bs * ((len + bs - 1) as int / bs as int) + (len + bs - 1) as int % bs as int,
                        0 <= (len + bs - 1) as int % bs as int,
                        k == (len + bs - 1) as int / bs as int,
                ;
            }
        }
        assert(len <= k * bs);
        let mut blocks: Vec<Vec<u8>> = Vec::with_capacity(k);
        let mut i: usize = 0;
        let mut off: usize = 0;
        while i < k
            invariant
                bs >= 1,
                len == data@.len(),
                len + bs <= usize::MAX,
                i <= k,
                k * bs <= len + bs,
                off == i * bs,
                blocks@.len() == i,
                forall|a: int| 0 <= a < i ==> (#[trigger] blocks@[a])@.len() == bs,
                forall|a: int, b: int|
                    0 <= a < i && 0 <= b < bs ==> #[trigger] blocks@[a]@[b] == padded_byte(
                        data@,
                        a * bs + b,
                    ),
            decreases k - i,
        {
            assert((i + 1) * bs <= k * bs) by (nonlinear_arith)
                requires
                    i + 1 <= k,
            ;
            assert((i + 1) * bs == i * bs + bs) by (nonlinear_arith);
            let mut block: Vec<u8> = Vec::with_capacity(bs);
            let mut j: usize = 0;
            while j < bs
                invariant
                    j <= bs,
                    off + bs <= usize::MAX,
                    len == data@.len(),
                    block@.len() == j,
                    forall|b: int| 0 <= b < j ==> #[trigger] block@[b] == padded_byte(data@, off + b),
                decreases bs - j,
            {
                let p = off + j;
                if p < len {
                    block.push(data[p]);
                } else {
                    block.push(0);
                }
                j = j + 1;
            }
            blocks.push(block);
            off = off + bs;
            i = i + 1;
        }
        LTEncoder {
            blocks,
            block_size: bs,
            original_len: #[verifier::truncate] (len as u32),
            run_id,
            seq: 0,
            thresholds,
        }
    }

    /// Number of source blocks `k`.
    pub fn block_count(&self) -> (r: u32)
        ensures
            r == (#[verifier::truncate] (self.blocks_view().len() as u32)),
    {
        #[verifier::truncate] (self.blocks.len() as u32)
    }

    /// Block size in bytes.
    pub fn block_size(&self) -> (r: u32)
        ensures
            r == (#[verifier::truncate] (self.spec_block_size() as u32)),
    {
        #[verifier::truncate] (self.block_size as u32)
    }

    /// Payload length before padding.
    pub fn original_len(&self) -> (r: u32)
        ensures
            r == self.spec_original_len(),
    {
        self.original_len
    }

    /// Emits the packet for the current sequence number and advances it,
    /// wrapping at 2^32.
    pub fn next_packet(&mut self) -> (r: Vec<u8>)
        requires
            old(self).wf(),
        ensures
            final(self).wf(),
            r@ == old(self).packet_spec(old(self).spec_seq()),
            r@.len() == HEADER_LEN + old(self).spec_block_size(),
            final(self).spec_seq() == old(self).spec_seq().wrapping_add(1),
            final(self).blocks_view() == old(self).blocks_view(),
            final(self).spec_block_size() == old(self).spec_block_size(),
            final(self).spec_original_len() == old(self).spec_original_len(),
            final(self).spec_run_id() == old(self).spec_run_id(),
            final(self).spec_thresholds() == old(self).spec_thresholds(),
    {
        let seq = self.seq;
        self.seq = self.seq.wrapping_add(1);
        let k = self.blocks.len();
        let bs = self.block_size;
        let sources = packet_sources(self.run_id, seq, k, &self.thresholds);
        let ghost bv = self.blocks_view();
        let mut payload: Vec<u8> = Vec::with_capacity(bs);
        let mut j: usize = 0;
        while j < bs
            invariant
                j <= bs,
                payload@.len() == j,
                forall|b: int| 0 <= b < j ==> #[trigger] payload@[b] == 0u8,
            decreases bs - j,
        {
            payload.push(0);
            j = j + 1;
        }
        let mut t: usize = 0;
        while t < sources.len()
            invariant
                self.wf(),
                bv == self.blocks_view(),
                k == self.blocks@.len(),
                bs == self.block_size,
                distinct_below(sources@, k as int),
                t <= sources@.len(),
                payload@.len() == bs,
                forall|b: int| 0 <= b < bs ==> #[trigger] payload@[b] == xor_at(bv, sources@, t as int, b),
            decreases sources.len() - t,
        {
            let src = sources[t];
            let block = &self.blocks[src];
            assert(bv[src as int] == block@);
            assert(block@.len() == bs);
            let mut j: usize = 0;
            while j < bs
                invariant
                    j <= bs,
                    block@.len() == bs,
                    0 <= src < bv.len(),
                    bv[src as int] == block@,
                    src == sources@[t as int],
                    t < sources@.len(),
                    payload@.len() == bs,
                    forall|b: int| 0 <= b < j ==> #[trigger] payload@[b] == xor_at(bv, sources@, t + 1, b),
                    forall|b: int| j <= b < bs ==> #[trigger] payload@[b] == xor_at(bv, sources@, t as int, b),
                decreases bs - j,
            {
                let v = payload[j] ^ block[j];
                payload.set(j, v);
                j = j + 1;
            }
            t = t + 1;
        }
        let mut pkt: Vec<u8> = Vec::new();
        push_u32_be(&mut pkt, self.run_id);
        push_u32_be(&mut pkt, #[verifier::truncate] (k as u32));
        push_u32_be(&mut pkt, self.original_len);
        push_u32_be(&mut pkt, seq);
        let ghost hdr = pkt@;
        let mut j: usize = 0;
        while j < bs
            invariant
                j <= bs,
                payload@.len() == bs,
                hdr.len() == HEADER_LEN,
                pkt@ == hdr + payload@.take(j as int),
            decreases bs - j,
        {
            pkt.push(payload[j]);
            j = j + 1;
            assert(pkt@ =~= hdr + payload@.take(j as int));
        }
        assert(payload@.take(bs as int) =~= payload@);
        assert(payload@ =~= xor_blocks(bv, sources@, bs as int));
        pkt
    }
}

} // verus!
