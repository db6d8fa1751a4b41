use folded_streaming_rans::estimators::floor_log2_u64;
use folded_streaming_rans::folding::{fold_symbol, unfold_symbol};
use folded_streaming_rans::{scale_freqs, AnsError, FoldedStreamANSCoder, MAX_RAW_SYMBOL};

/// The quasi-folded word of folded symbol `x` under (F, R).
fn quasi(x: u64, fidelity: u64, radix: u64) -> u64 {
    let t = 1u64 << (fidelity + radix - 1);
    let o = (1u64 << (fidelity - 1)) * ((1u64 << radix) - 1);
    if x < t {
        x * 256
    } else {
        let c = if radix == 1 { (x - t) / o + 1 } else { x / o };
        (x - c * o) * 256 + c * radix
    }
}

#[test]
fn singleton_symbols_fold_to_themselves() {
    for s in [0u64, 1, 100, 511] {
        let mut folded = vec![9u8];
        let x = fold_symbol(s, 2, 8, &mut folded);
        assert_eq!(x, s);
        assert_eq!(folded, vec![9u8]);
        assert_eq!(unfold_symbol(quasi(x, 2, 8), 8, &folded, 1), Some((s, 1)));
    }
}

#[test]
fn folding_writes_low_chunks_first() {
    let mut folded = Vec::new();
    assert_eq!(fold_symbol(512, 2, 8, &mut folded), 512);
    assert_eq!(fold_symbol(1000, 2, 8, &mut folded), 513);
    assert_eq!(folded, vec![0u8, 232]);
    // 0x12345 (17 bits) under F = 2, R = 8: ⌈15 / 8⌉ = 2 chunks, 0x45 then
    // 0x23, and top 1.
    let mut f2 = Vec::new();
    let x = fold_symbol(0x12345, 2, 8, &mut f2);
    assert_eq!(f2, vec![0x45u8, 0x23]);
    assert_eq!(x, 1 + 2 * 510);
    assert_eq!(quasi(x, 2, 8), 256 + 16);
    // 1024 (11 bits): ⌈9 / 8⌉ = 2 chunks, 0 then 4, and top 0.
    let mut f4 = Vec::new();
    assert_eq!(fold_symbol(1024, 2, 8, &mut f4), 2 * 510);
    assert_eq!(f4, vec![0u8, 4]);
    assert_eq!(unfold_symbol(quasi(2 * 510, 2, 8), 8, &f4, 2), Some((1024, 0)));
    // 0x2345678 (26 bits) under F = 2, R = 8: ⌈24 / 8⌉ = 3 chunks, 0x78,
    // 0x56, 0x34, and top 2.
    let mut f3 = Vec::new();
    let y = fold_symbol(0x2345678, 2, 8, &mut f3);
    assert_eq!(f3, vec![0x78u8, 0x56, 0x34]);
    assert_eq!(y, 2 + 3 * 510);
    assert_eq!(quasi(y, 2, 8), 2 * 256 + 24);
}

#[test]
fn fold_unfold_round_trip() {
    for &(f, r) in &[(1u64, 1u64), (2, 8), (3, 5), (11, 8), (7, 2)] {
        for s in [0u64, 1, 2, 3, 511, 512, 1000, 65_535, 1 << 33, MAX_RAW_SYMBOL - 1, MAX_RAW_SYMBOL] {
            let mut folded = vec![1u8, 2, 3];
            let x = fold_symbol(s, f as usize, r as usize, &mut folded);
            let len = folded.len();
            let got = unfold_symbol(quasi(x, f, r), r as usize, &folded, len);
            assert_eq!(got, Some((s, 3)), "s = {}, F = {}, R = {}", s, f, r);
        }
    }
}

#[test]
fn unfolding_a_short_stream_fails() {
    let mut folded = Vec::new();
    let x = fold_symbol(1000, 2, 8, &mut folded);
    assert_eq!(unfold_symbol(quasi(x, 2, 8), 8, &folded, 0), None);
}

#[test]
fn scale_freqs_exact_values() {
    let freqs = [3usize, 0, 1];
    let sorted = [2usize, 0];
    assert_eq!(scale_freqs(&freqs, &sorted, 2, 4, 8), Ok(vec![6, 0, 2]));
    assert_eq!(scale_freqs(&freqs, &sorted, 2, 4, 1), Err(AnsError::FrameTooSmall));
    assert_eq!(scale_freqs(&freqs, &sorted, 2, 4, 2), Ok(vec![1, 0, 1]));
}

#[test]
fn floor_log2_values() {
    assert_eq!(floor_log2_u64(0), 0);
    assert_eq!(floor_log2_u64(1), 0);
    assert_eq!(floor_log2_u64(1023), 9);
    assert_eq!(floor_log2_u64(1024), 10);
    assert_eq!(floor_log2_u64(u64::MAX), 63);
}

#[test]
fn single_model_coder_encodes_every_lane() {
    let input: Vec<u64> = (0..103u64).map(|i| (i * 37) % 50 + if i % 10 == 0 { 5000 } else { 0 }).collect();
    let mut coder = FoldedStreamANSCoder::new(&input, 2).unwrap();
    assert_eq!(coder.folding_threshold, 512);
    coder.encode_all();
    let p = coder.serialize();
    assert_eq!(p.sequence_length, 103);
    assert_eq!(p.states.len(), 4);
    assert!(p.states.iter().all(|s| *s >= 1 << 32));
    // Eleven symbols of 5000 and more (13 bits), ⌈11 / 8⌉ = 2 tail chunks each.
    assert_eq!(p.folded_bits.len(), 22);
    assert_eq!(
        FoldedStreamANSCoder::with_parameters(&input, 0, 8).err(),
        Some(AnsError::ParameterError)
    );
    let bad = vec![MAX_RAW_SYMBOL + 1];
    assert_eq!(FoldedStreamANSCoder::new(&bad, 2).err(), Some(AnsError::ParameterError));
}

#[test]
fn scaling_to_the_own_sum_keeps_the_counts() {
    let freqs = [3usize, 1, 4, 0];
    let sorted = [1usize, 0, 2];
    assert_eq!(scale_freqs(&freqs, &sorted, 8, 8, 8), Ok(vec![3, 1, 4, 0]));
    // An index left out keeps its count.
    assert_eq!(scale_freqs(&freqs, &[1usize, 2], 5, 5, 5), Ok(vec![3, 1, 4, 0]));
}
