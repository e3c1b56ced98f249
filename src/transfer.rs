//! Facts about a whole transfer: what the encoder sends is what the decoder
//! expects, and a completed decode returns the payload.
use vstd::prelude::*;
use crate::decoder::{LTDecoder, xor_seq, payload_byte, concat, joined, lemma_xor_at_prefix, lemma_concat_index, lemma_concat_len};
use crate::encoder::{LTEncoder, padded_byte, xor_blocks};
use crate::oracle::sources_spec;
use crate::wire::{be_u32_at, be_bytes, header_spec, lemma_be_round_trip};

verus! {

/// Every packet of an encoder is honest for the encoder's source blocks, as
/// seen by a decoder of the same session (same `k`, block size, `run_id` and
/// degree table); its header names the session and the sequence number.
pub proof fn lemma_packet_honest(enc: LTEncoder, dec: LTDecoder, seq: u32)
    requires
        enc.wf(),
        dec.spec_k() == enc.blocks_view().len(),
        dec.spec_block_size() == enc.spec_block_size(),
        dec.spec_run_id() == enc.spec_run_id(),
        dec.spec_thresholds() == enc.spec_thresholds(),
    ensures
        dec.honest_for(enc.packet_spec(seq), enc.blocks_view()),
        be_u32_at(enc.packet_spec(seq), 0) == enc.spec_run_id(),
        be_u32_at(enc.packet_spec(seq), 12) == seq,
        enc.packet_spec(seq).len() == 16 + enc.spec_block_size(),
{
    enc.lemma_wf_shape();
    let k = enc.blocks_view().len() as int;
    let bs = enc.spec_block_size();
    let src = sources_spec(enc.spec_thresholds(), enc.spec_run_id(), seq, k);
    let hdr = header_spec(enc.spec_run_id(), #[verifier::truncate] (k as u32), enc.spec_original_len(), seq);
    let xb = xor_blocks(enc.blocks_view(), src, bs);
    let pkt = enc.packet_spec(seq);
    assert(pkt == hdr + xb);
    assert(hdr.len() == 16);
    assert(xb.len() == bs);
    lemma_be_round_trip(seq);
    lemma_be_round_trip(enc.spec_run_id());
    assert(pkt.subrange(12, 16) =~= be_bytes(seq));
    assert(pkt.subrange(0, 4) =~= be_bytes(enc.spec_run_id()));
    assert(be_u32_at(pkt, 12) == be_u32_at(pkt.subrange(12, 16), 0));
    assert(be_u32_at(pkt, 0) == be_u32_at(pkt.subrange(0, 4), 0));
    assert forall|j: int| 0 <= j < dec.spec_block_size() implies #[trigger] payload_byte(pkt, j) == xor_seq(
        enc.blocks_view(),
        sources_spec(dec.spec_thresholds(), dec.spec_run_id(), be_u32_at(pkt, 12), dec.spec_k()),
        j,
    ) by {
        assert(pkt[16 + j] == xb[j]);
        lemma_xor_at_prefix(enc.blocks_view(), src, src.len() as int, j);
        assert(src.take(src.len() as int) =~= src);
    }
}

/// A complete decode returns the payload: when the decoder is complete and
/// consistent with source blocks that hold `data` zero-padded (as an
/// encoder of `data` holds it), the first `data.len()` bytes of its
/// output are `data`.
pub proof fn lemma_round_trip(dec: LTDecoder, truth: Seq<Seq<u8>>, data: Seq<u8>)
    requires
        dec.wf(),
        dec.is_done_spec(),
        dec.consistent(truth),
        dec.spec_block_size() >= 1,
        data.len() <= dec.spec_k() * dec.spec_block_size(),
        forall|i: int, j: int|
            0 <= i < truth.len() && 0 <= j < dec.spec_block_size() ==> #[trigger] truth[i][j] == padded_byte(
                data,
                i * dec.spec_block_size() + j,
            ),
    ensures
        joined(dec.blocks_view()).take(data.len() as int) == data,
{
    let bs = dec.spec_block_size();
    let k = dec.spec_k();
    dec.lemma_done_is_truth(truth);
    dec.lemma_truth_shape(truth);
    assert forall|p: int| 0 <= p < data.len() implies #[trigger] concat(truth)[p] == data[p] by {
        let i = p / bs;
        let j = p % bs;
        vstd::arithmetic::div_mod::lemma_fundamental_div_mod(p, bs);
        vstd::arithmetic::div_mod::lemma_mod_pos_bound(p, bs);
        assert(i < k) by (nonlinear_arith)
            requires
                p == bs * i + j,
                0 <= j,
                p < k * bs,
                bs >= 1,
        ;
        assert(0 <= i) by (nonlinear_arith)
            requires
                p == bs * i + j,
                j < bs,
                p >= 0,
                bs >= 1,
        ;
        assert(i * bs + j == p) by (nonlinear_arith)
            requires
                p == bs * i + j,
        ;
        lemma_concat_index(truth, bs, i, j);
    }
    lemma_concat_len(truth, bs);
    assert(concat(truth).take(data.len() as int) =~= data);
}

} // verus!
