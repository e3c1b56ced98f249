use qram_core::decoder::LTDecoder;
use qram_core::encoder::{block_count_for, LTEncoder};
use qram_core::oracle::{degree_from_draw, packet_sources, prng_seed, uniform_usize, xorshift64};
use qram_core::qr::{ecc_from_level, qr_generate, EccLevel};
use qram_core::wire::{push_u32_be, read_u32_be};

fn robust_soliton_cdf(k: usize) -> Vec<f64> {
    let k_f = k as f64;
    let c = 0.03_f64;
    let delta = 0.5_f64;
    let r = (c * k_f.sqrt() * (k_f / delta).ln()).max(1.0);
    let m = ((k_f / r).floor() as usize).max(1).min(k);
    let mut pmf = Vec::with_capacity(k);
    for i in 1..=k {
        let rho = if i == 1 { 1.0 / k_f } else { 1.0 / (i as f64 * (i as f64 - 1.0)) };
        let tau = if i < m {
            r / (i as f64 * k_f)
        } else if i == m {
            r * (r / delta).ln() / k_f
        } else {
            0.0
        };
        pmf.push(rho + tau);
    }
    let beta: f64 = pmf.iter().sum();
    let mut cdf = Vec::with_capacity(k);
    let mut acc = 0.0_f64;
    for v in &pmf {
        acc += v / beta;
        cdf.push(acc);
    }
    cdf
}

fn draw_fraction(x: u64) -> f64 {
    (x as f64) / (u64::MAX as f64)
}

fn last_covered_draw(c: f64) -> u64 {
    if draw_fraction(u64::MAX) <= c {
        return u64::MAX;
    }
    let (mut lo, mut hi) = (0u64, u64::MAX);
    while hi - lo > 1 {
        let mid = lo + (hi - lo) / 2;
        if draw_fraction(mid) <= c {
            lo = mid;
        } else {
            hi = mid;
        }
    }
    lo
}

fn thresholds(k: usize) -> Vec<u64> {
    if k <= 1 {
        return Vec::new();
    }
    robust_soliton_cdf(k).into_iter().map(last_covered_draw).collect()
}

fn float_degree(draw: u64, k: usize) -> usize {
    let u = draw_fraction(draw);
    let cdf = robust_soliton_cdf(k);
    let degree = cdf.iter().position(|&v| v >= u).unwrap_or(k - 1) + 1;
    degree.min(k)
}

fn encoder_for(data: &[u8], bs: usize, run_id: u32) -> LTEncoder {
    let k = block_count_for(data.len(), bs);
    LTEncoder::new(data, bs, run_id, thresholds(k))
}

fn decoder_for(enc: &LTEncoder, run_id: u32) -> LTDecoder {
    let k = enc.block_count();
    LTDecoder::new(k, enc.block_size(), run_id, thresholds(k as usize))
}

fn decode_in_order(data: &[u8], bs: usize, run_id: u32, limit: usize) -> (LTDecoder, usize) {
    let mut enc = encoder_for(data, bs, run_id);
    let mut dec = decoder_for(&enc, run_id);
    let mut used = 0;
    while used < limit {
        let pkt = enc.next_packet();
        used += 1;
        if dec.push_packet(&pkt) {
            break;
        }
    }
    (dec, used)
}

fn pseudo_random_bytes(n: usize, mut s: u64) -> Vec<u8> {
    (0..n).map(|_| (xorshift64(&mut s) >> 24) as u8).collect()
}

#[test]
fn zero_payload_three_blocks() {
    let data = vec![0u8; 10];
    let mut enc = encoder_for(&data, 4, 1);
    assert_eq!(enc.block_count(), 3);
    assert_eq!(enc.block_size(), 4);
    assert_eq!(enc.original_len(), 10);
    for seq in 0..3u32 {
        let pkt = enc.next_packet();
        assert_eq!(pkt.len(), 16 + 4);
        assert_eq!(read_u32_be(&pkt, 0), 1);
        assert_eq!(read_u32_be(&pkt, 4), 3);
        assert_eq!(read_u32_be(&pkt, 8), 10);
        assert_eq!(read_u32_be(&pkt, 12), seq);
        assert_eq!(&pkt[16..], &[0u8, 0, 0, 0]);
    }
    let (dec, _) = decode_in_order(&data, 4, 1, 1000);
    assert!(dec.is_done());
    assert_eq!(dec.get_result(10), data);
}

#[test]
fn hello_world_round_trip() {
    let data = b"hello, world!".to_vec();
    let enc = encoder_for(&data, 4, 42);
    assert_eq!(enc.block_count(), 4);
    assert_eq!(enc.original_len(), 13);
    let (dec, _) = decode_in_order(&data, 4, 42, 1000);
    assert!(dec.is_done());
    assert_eq!(dec.decoded_count(), 4);
    assert_eq!(dec.get_result(13), data);
}

#[test]
fn reverse_order_matches_in_order() {
    let data = pseudo_random_bytes(4096, 0x1234_5678);
    let run_id = 0xDEAD_BEEF;
    let mut enc = encoder_for(&data, 256, run_id);
    assert_eq!(enc.block_count(), 16);
    let packets: Vec<Vec<u8>> = (0..200).map(|_| enc.next_packet()).collect();
    let mut forward = decoder_for(&enc, run_id);
    for p in &packets {
        forward.push_packet(p);
    }
    let mut backward = decoder_for(&enc, run_id);
    for p in packets.iter().rev() {
        backward.push_packet(p);
    }
    assert!(forward.is_done());
    assert!(backward.is_done());
    assert_eq!(forward.get_result(4096), data);
    assert_eq!(backward.get_result(4096), forward.get_result(4096));
}

#[test]
fn duplicate_packet_is_ignored() {
    let data = pseudo_random_bytes(2000, 7);
    let mut enc = encoder_for(&data, 100, 3);
    let packets: Vec<Vec<u8>> = (0..6).map(|_| enc.next_packet()).collect();
    let mut dec = decoder_for(&enc, 3);
    let first = dec.push_packet(&packets[5]);
    let count = dec.decoded_count();
    let second = dec.push_packet(&packets[5]);
    assert_eq!(first, second);
    assert_eq!(dec.decoded_count(), count);
    assert!(!dec.is_done());
}

#[test]
fn foreign_run_id_is_rejected() {
    let data = b"abc".to_vec();
    let mut enc = encoder_for(&data, 1, 0);
    let pkt = enc.next_packet();
    let mut dec = LTDecoder::new(3, 1, 1, thresholds(3));
    assert!(!dec.push_packet(&pkt));
    assert_eq!(dec.decoded_count(), 0);
    assert!(!dec.is_done());
    assert!(dec.get_result(3).is_empty());
}

#[test]
fn single_byte_single_block() {
    let data = vec![0xFFu8];
    let mut enc = encoder_for(&data, 1, 9);
    assert_eq!(enc.block_count(), 1);
    assert_eq!(packet_sources(9, 0, 1, &thresholds(1)), vec![0]);
    let pkt = enc.next_packet();
    assert_eq!(&pkt[16..], &[0xFF]);
    let mut dec = decoder_for(&enc, 9);
    assert!(dec.push_packet(&pkt));
    assert_eq!(dec.get_result(1), data);
}

#[test]
fn short_packet_is_rejected() {
    let mut dec = LTDecoder::new(2, 4, 5, thresholds(2));
    assert!(!dec.push_packet(&[0u8; 15]));
    assert_eq!(dec.decoded_count(), 0);
}

#[test]
fn done_decoder_ignores_packets() {
    let mut dec = LTDecoder::new(0, 4, 5, Vec::new());
    assert!(dec.is_done());
    assert!(dec.push_packet(&[0u8; 3]));
    assert!(dec.get_result(10).is_empty());
}

#[test]
fn short_payload_is_zero_padded() {
    // One block of four bytes; a packet carrying only two payload bytes.
    let mut pkt = Vec::new();
    push_u32_be(&mut pkt, 8);
    push_u32_be(&mut pkt, 1);
    push_u32_be(&mut pkt, 4);
    push_u32_be(&mut pkt, 0);
    pkt.extend_from_slice(&[7, 9]);
    let mut dec = LTDecoder::new(1, 4, 8, Vec::new());
    assert!(dec.push_packet(&pkt));
    assert_eq!(dec.get_result(4), vec![7, 9, 0, 0]);
    assert_eq!(dec.get_result(3), vec![7, 9, 0]);
}

#[test]
fn block_count_edges() {
    assert_eq!(block_count_for(0, 4), 1);
    assert_eq!(block_count_for(10, 4), 3);
    assert_eq!(block_count_for(12, 4), 3);
    assert_eq!(block_count_for(13, 4), 4);
    assert_eq!(block_count_for(5, 0), 5);
    let enc = encoder_for(&[], 0, 1);
    assert_eq!(enc.block_count(), 1);
    assert_eq!(enc.block_size(), 1);
    assert_eq!(enc.original_len(), 0);
}

#[test]
fn xorshift_step_value() {
    let mut s = 1u64;
    assert_eq!(xorshift64(&mut s), 1_082_269_761);
    assert_eq!(s, 1_082_269_761);
}

#[test]
fn seed_mixing_and_fallback() {
    assert_eq!(prng_seed(0, 0), 0xcafe_f00d_dead_beef);
    assert_eq!(prng_seed(1, 0), 0x9e37_79b9_7f4a_7c15);
    assert_eq!(prng_seed(0, 1), 0x6c62_272e_07bb_0142);
    assert_eq!(prng_seed(1, 1), 0x9e37_79b9_7f4a_7c15 ^ 0x6c62_272e_07bb_0142);
    assert_eq!(prng_seed(2, 0), 0x9e37_79b9_7f4a_7c15u64.wrapping_mul(2));
}

#[test]
fn uniform_draws() {
    let mut s = 1u64;
    assert_eq!(uniform_usize(&mut s, 0), 0);
    assert_eq!(s, 1);
    assert_eq!(uniform_usize(&mut s, 10), 1);
    assert_eq!(s, 1_082_269_761);
}

#[test]
fn degree_lookup_matches_float_cdf() {
    for k in [2usize, 3, 4, 16, 100] {
        let th = thresholds(k);
        let mut s = 99u64;
        for _ in 0..500 {
            let draw = xorshift64(&mut s);
            assert_eq!(degree_from_draw(&th, draw, k), float_degree(draw, k));
        }
        for &t in &th {
            assert_eq!(degree_from_draw(&th, t, k), float_degree(t, k));
            if t < u64::MAX {
                assert_eq!(degree_from_draw(&th, t + 1, k), float_degree(t + 1, k));
            }
        }
    }
}

#[test]
fn degree_lookup_exact() {
    let th = vec![10u64, 20, 30];
    assert_eq!(degree_from_draw(&th, 0, 5), 1);
    assert_eq!(degree_from_draw(&th, 10, 5), 1);
    assert_eq!(degree_from_draw(&th, 11, 5), 2);
    assert_eq!(degree_from_draw(&th, 30, 5), 3);
    assert_eq!(degree_from_draw(&th, 31, 5), 5);
    assert_eq!(degree_from_draw(&th, 25, 2), 2);
    assert_eq!(degree_from_draw(&th, 5, 1), 1);
}

#[test]
fn sources_are_deterministic_and_distinct() {
    for k in [1usize, 2, 5, 40] {
        let th = thresholds(k);
        for seq in 0..50u32 {
            let a = packet_sources(77, seq, k, &th);
            let b = packet_sources(77, seq, k, &th);
            assert_eq!(a, b);
            assert!(!a.is_empty() && a.len() <= k);
            for (i, x) in a.iter().enumerate() {
                assert!(*x < k);
                assert!(!a[..i].contains(x));
            }
        }
    }
}

#[test]
fn packet_payload_is_xor_of_sources() {
    let data = pseudo_random_bytes(40, 3);
    let mut enc = encoder_for(&data, 8, 11);
    let th = thresholds(5);
    for seq in 0..20u32 {
        let pkt = enc.next_packet();
        let mut expect = vec![0u8; 8];
        for s in packet_sources(11, seq, 5, &th) {
            for j in 0..8 {
                expect[j] ^= data[s * 8 + j];
            }
        }
        assert_eq!(&pkt[16..], &expect[..]);
    }
}

#[test]
fn header_is_big_endian() {
    let mut enc = encoder_for(&[1, 2, 3], 2, 0x0102_0304);
    let pkt = enc.next_packet();
    assert_eq!(&pkt[..16], &[1, 2, 3, 4, 0, 0, 0, 2, 0, 0, 0, 3, 0, 0, 0, 0]);
}

#[test]
fn many_blocks_round_trip() {
    let data = pseudo_random_bytes(3000, 11);
    let (dec, used) = decode_in_order(&data, 30, 123, 2000);
    assert!(dec.is_done());
    assert!(used >= 100);
    assert_eq!(dec.get_result(3000), data);
}

#[test]
fn early_result_is_empty() {
    let data = pseudo_random_bytes(100, 5);
    let mut enc = encoder_for(&data, 10, 2);
    let mut dec = decoder_for(&enc, 2);
    let pkt = enc.next_packet();
    dec.push_packet(&pkt);
    assert!(!dec.is_done());
    assert!(dec.get_result(100).is_empty());
}

#[test]
fn qr_grid_packing() {
    let out = qr_generate(b"hello", 0);
    assert_eq!(out.len(), 4 + 21 * 21);
    assert_eq!(&out[..4], &[21, 0, 0, 0]);
    assert!(out[4..].iter().all(|&m| m <= 1));
    assert!(out[4..].iter().any(|&m| m == 1));
    assert!(out[4..].iter().any(|&m| m == 0));
}

#[test]
fn qr_too_long_is_empty() {
    let data = vec![0x55u8; 4000];
    assert!(qr_generate(&data, 3).is_empty());
}

#[test]
fn ecc_levels() {
    assert_eq!(ecc_from_level(0), EccLevel::Low);
    assert_eq!(ecc_from_level(1), EccLevel::Medium);
    assert_eq!(ecc_from_level(2), EccLevel::Quartile);
    assert_eq!(ecc_from_level(3), EccLevel::High);
    assert_eq!(ecc_from_level(200), EccLevel::High);
}

#[test]
fn long_payload_is_cut_to_block_size() {
    let mut pkt = Vec::new();
    push_u32_be(&mut pkt, 8);
    push_u32_be(&mut pkt, 1);
    push_u32_be(&mut pkt, 2);
    push_u32_be(&mut pkt, 0);
    pkt.extend_from_slice(&[1, 2, 3, 4, 5]);
    let mut dec = LTDecoder::new(1, 2, 8, Vec::new());
    assert!(dec.push_packet(&pkt));
    assert_eq!(dec.get_result(100), vec![1, 2]);
}

#[test]
fn duplicates_interleaved_still_decode() {
    let data = pseudo_random_bytes(600, 21);
    let mut enc = encoder_for(&data, 20, 77);
    let packets: Vec<Vec<u8>> = (0..150).map(|_| enc.next_packet()).collect();
    let mut dec = decoder_for(&enc, 77);
    for p in &packets {
        let before = dec.decoded_count();
        dec.push_packet(p);
        let after = dec.decoded_count();
        assert_eq!(dec.push_packet(p), dec.is_done());
        assert_eq!(dec.decoded_count(), after);
        assert!(after >= before);
    }
    assert!(dec.is_done());
    assert_eq!(dec.get_result(600), data);
}

#[test]
fn sequence_numbers_count_up() {
    let data = vec![5u8; 8];
    let mut enc = encoder_for(&data, 8, 1);
    let pkt = enc.next_packet();
    assert_eq!(read_u32_be(&pkt, 12), 0);
    let pkt = enc.next_packet();
    assert_eq!(read_u32_be(&pkt, 12), 1);
}

#[test]
fn qr_size_is_four_versions_plus_seventeen() {
    for n in [1usize, 50, 200, 1000] {
        let out = qr_generate(&vec![0xA5u8; n], 0);
        let size = u32::from_le_bytes([out[0], out[1], out[2], out[3]]);
        assert_eq!(size % 4, 1);
        assert!((21..=177).contains(&size));
        assert_eq!(out.len() as u32, 4 + size * size);
    }
    assert!(qr_generate(&vec![0u8; 2954], 0).is_empty());
}

#[test]
fn counts_never_exceed_block_count() {
    let data = pseudo_random_bytes(500, 9);
    let mut enc = encoder_for(&data, 25, 4);
    let mut dec = decoder_for(&enc, 4);
    assert_eq!(dec.decoded_count(), 0);
    for _ in 0..80 {
        let pkt = enc.next_packet();
        dec.push_packet(&pkt);
        assert!(dec.decoded_count() <= dec.block_count());
        assert_eq!(dec.is_done(), dec.decoded_count() == dec.block_count());
    }
}
