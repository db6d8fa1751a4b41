use folded_streaming_rans::encoder::encode_with_model;
use folded_streaming_rans::{
    ANSComponentModel4Encoder, ANSDecoder, ANSEncoder, ANSModel4Decoder, ANSModel4Encoder,
    ANSModel4EncoderBuilder, AnsError, BVGraphComponent, RawSymbol, INTERVAL_LOWER_BOUND,
    MAX_RAW_SYMBOL,
};

fn round_trip_single(source: &[u64]) -> Vec<u64> {
    let mut builder = ANSModel4EncoderBuilder::new();
    for symbol in source {
        builder.push_symbol(*symbol, BVGraphComponent::Outdegree).unwrap();
    }
    let mut encoder = ANSEncoder::new(builder.build());
    for symbol in source {
        encoder.encode(*symbol, BVGraphComponent::Outdegree).unwrap();
    }
    let prelude = encoder.into_prelude();
    let model = ANSModel4Decoder::new(&prelude.tables);
    let mut decoder = ANSDecoder::new(&prelude, &model);
    let mut decoded = Vec::new();
    for _ in 0..source.len() {
        decoded.push(decoder.decode(BVGraphComponent::Outdegree).unwrap());
    }
    decoded.reverse();
    decoded
}

/// A model with the given Outdegree model and a one-symbol model elsewhere.
fn model_with_outdegree(outdegree: ANSComponentModel4Encoder) -> ANSModel4Encoder {
    let mut tables = vec![outdegree];
    for _ in 1..9 {
        tables.push(ANSComponentModel4Encoder::from_counts(&vec![], 2, 8, 1).unwrap());
    }
    ANSModel4Encoder { tables }
}

#[test]
fn decoder_decodes_correctly_single_dummy_sequence() {
    let source = vec![1_u64, 1, 1, 2, 2, 2, 3, 3, 4, 5];
    let mut model4encoder_builder = ANSModel4EncoderBuilder::new();

    for symbol in &source {
        model4encoder_builder
            .push_symbol(*symbol, BVGraphComponent::Outdegree)
            .unwrap();
    }

    let encoder_model = model4encoder_builder.build();
    let mut encoder = ANSEncoder::new(encoder_model);

    for symbol in &source {
        encoder.encode(*symbol, BVGraphComponent::Outdegree).unwrap();
    }

    let prelude = encoder.into_prelude();
    let model = ANSModel4Decoder::new(&prelude.tables);
    let mut decoder = ANSDecoder::new(&prelude, &model);
    let mut decoded_symbols: Vec<RawSymbol> = Vec::new();

    for _ in 0..source.len() {
        decoded_symbols.push(decoder.decode(BVGraphComponent::Outdegree).unwrap());
    }
    decoded_symbols.reverse(); // since encodes as a LIFO

    assert_eq!(decoded_symbols, source);
}

#[test]
fn folding_boundary_round_trips_with_fidelity_two_radix_eight() {
    // Folded symbols of 511, 512 and 1000 under F = 2, R = 8.
    let mut counts = vec![0usize; 514];
    counts[511] = 1;
    counts[512] = 1;
    counts[513] = 1;
    let outdegree = ANSComponentModel4Encoder::from_counts(&counts, 2, 8, 4).unwrap();
    assert_eq!(outdegree.folding_threshold, 512);
    assert_eq!(outdegree.folding_offset, 510);
    let mut encoder = ANSEncoder::new(model_with_outdegree(outdegree));
    let source = [511u64, 512, 1000];
    let mut tail_lengths = Vec::new();
    for s in source {
        let before = encoder.folded_bits.len();
        encoder.encode(s, BVGraphComponent::Outdegree).unwrap();
        tail_lengths.push(encoder.folded_bits.len() - before);
    }
    assert_eq!(tail_lengths, vec![0, 1, 1]);
    assert_eq!(encoder.folded_bits, vec![0u8, 232]);
    let prelude = encoder.into_prelude();
    let model = ANSModel4Decoder::new(&prelude.tables);
    let mut decoder = ANSDecoder::new(&prelude, &model);
    let mut decoded = Vec::new();
    for _ in 0..3 {
        decoded.push(decoder.decode(BVGraphComponent::Outdegree).unwrap());
    }
    decoded.reverse();
    assert_eq!(decoded, vec![511, 512, 1000]);
}

#[test]
fn single_sequence_round_trips() {
    let source = vec![1_u64, 1, 1, 2, 2, 2, 3, 3, 4, 5];
    assert_eq!(round_trip_single(&source), source);
}

#[test]
fn large_symbols_round_trip() {
    let source = vec![0u64, 7, 1 << 20, MAX_RAW_SYMBOL, 123_456_789, 1 << 47, 3, 3, 3];
    assert_eq!(round_trip_single(&source), source);
}

#[test]
fn two_interleaved_components_round_trip() {
    let first_source = vec![1_u64, 1, 1, 2, 2, 2, 3, 3, 4, 5];
    let second_source = vec![1_u64, 3, 3, 3, 2, 2, 3, 3, 4, 5];
    let mut builder = ANSModel4EncoderBuilder::new();
    for index in 0..first_source.len() {
        builder.push_symbol(first_source[index], BVGraphComponent::Outdegree).unwrap();
        builder.push_symbol(second_source[index], BVGraphComponent::BlockCount).unwrap();
    }
    let mut encoder = ANSEncoder::new(builder.build());
    for index in 0..first_source.len() {
        encoder.encode(first_source[index], BVGraphComponent::Outdegree).unwrap();
        encoder.encode(second_source[index], BVGraphComponent::BlockCount).unwrap();
    }
    let prelude = encoder.into_prelude();
    let model = ANSModel4Decoder::new(&prelude.tables);
    let mut decoder = ANSDecoder::new(&prelude, &model);
    let mut first = Vec::new();
    let mut second = Vec::new();
    for _ in 0..first_source.len() {
        second.push(decoder.decode(BVGraphComponent::BlockCount).unwrap());
        first.push(decoder.decode(BVGraphComponent::Outdegree).unwrap());
    }
    first.reverse();
    second.reverse();
    assert_eq!(first, first_source);
    assert_eq!(second, second_source);
}

#[test]
fn frame_too_small_is_reported() {
    let counts = vec![1usize; 256];
    let r = ANSComponentModel4Encoder::from_counts(&counts, 2, 8, 7);
    assert_eq!(r.err(), Some(AnsError::FrameTooSmall));
    let ok = ANSComponentModel4Encoder::from_counts(&counts, 2, 8, 8).unwrap();
    assert!(ok.get_freqs().iter().all(|f| *f == 1));
}

#[test]
fn frame_sum_is_the_frame_size() {
    let source: Vec<u64> = (0..200u64).map(|i| (i * i) % 97 + (i % 3) * 1000).collect();
    let mut builder = ANSModel4EncoderBuilder::new();
    for s in &source {
        builder.push_symbol(*s, BVGraphComponent::Residual).unwrap();
    }
    let model = builder.build();
    for table in &model.tables {
        let sum: u64 = table.get_freqs().iter().map(|f| *f as u64).sum();
        assert_eq!(sum, 1u64 << table.frame_size);
        let mut cumul = 0u64;
        for e in &table.table {
            assert_eq!(e.cumul_freq as u64, cumul);
            cumul += e.freq as u64;
        }
    }
    for s in &source {
        assert!(model.can_encode(*s, BVGraphComponent::Residual));
    }
}

#[test]
fn state_stays_in_interval() {
    let source: Vec<u64> = (0..500u64).map(|i| (i * 7919) % 300).collect();
    let mut builder = ANSModel4EncoderBuilder::new();
    for s in &source {
        builder.push_symbol(*s, BVGraphComponent::Blocks).unwrap();
    }
    let mut encoder = ANSEncoder::new(builder.build());
    assert_eq!(encoder.state, INTERVAL_LOWER_BOUND);
    for s in &source {
        encoder.encode(*s, BVGraphComponent::Blocks).unwrap();
        assert!(encoder.state >= INTERVAL_LOWER_BOUND);
    }
    let prelude = encoder.into_prelude();
    let model = ANSModel4Decoder::new(&prelude.tables);
    let mut decoder = ANSDecoder::new(&prelude, &model);
    let mut decoded = Vec::new();
    for _ in 0..source.len() {
        decoded.push(decoder.decode(BVGraphComponent::Blocks).unwrap());
        assert!(decoder.state >= INTERVAL_LOWER_BOUND);
    }
    decoded.reverse();
    assert_eq!(decoded, source);
    assert_eq!(decoder.state, INTERVAL_LOWER_BOUND);
    assert_eq!(decoder.last_normalized_pos, 0);
    assert_eq!(decoder.last_unfolded_pos, 0);
}

#[test]
fn decoding_past_the_start_is_a_corrupted_stream() {
    let source = vec![1_u64, 1, 1, 2, 2, 2, 3, 3, 4, 5];
    let mut builder = ANSModel4EncoderBuilder::new();
    for s in &source {
        builder.push_symbol(*s, BVGraphComponent::Outdegree).unwrap();
    }
    let mut encoder = ANSEncoder::new(builder.build());
    for s in &source {
        encoder.encode(*s, BVGraphComponent::Outdegree).unwrap();
    }
    let prelude = encoder.into_prelude();
    let model = ANSModel4Decoder::new(&prelude.tables);
    let mut decoder = ANSDecoder::new(&prelude, &model);
    for _ in 0..source.len() {
        decoder.decode(BVGraphComponent::Outdegree).unwrap();
    }
    let state = decoder.state;
    assert_eq!(
        decoder.decode(BVGraphComponent::Outdegree),
        Err(AnsError::CorruptedStream)
    );
    assert_eq!(decoder.state, state);
}

#[test]
fn unencodable_symbols_are_parameter_errors() {
    let mut builder = ANSModel4EncoderBuilder::new();
    assert_eq!(
        builder.push_symbol(MAX_RAW_SYMBOL + 1, BVGraphComponent::Outdegree),
        Err(AnsError::ParameterError)
    );
    builder.push_symbol(4, BVGraphComponent::Outdegree).unwrap();
    let mut encoder = ANSEncoder::new(builder.build());
    assert_eq!(
        encoder.encode(MAX_RAW_SYMBOL + 1, BVGraphComponent::Outdegree),
        Err(AnsError::ParameterError)
    );
    assert_eq!(
        encoder.encode(5, BVGraphComponent::Outdegree),
        Err(AnsError::ParameterError)
    );
    assert!(encoder.normalized_bits.is_empty());
    assert!(encoder.folded_bits.is_empty());
    assert_eq!(encoder.state, INTERVAL_LOWER_BOUND);
    encoder.encode(4, BVGraphComponent::Outdegree).unwrap();
}

#[test]
fn encode_with_model_matches_the_rans_step() {
    // Frequencies 2, 1, 1 in a frame of 4.
    let counts = vec![2usize, 1, 1];
    let m = ANSComponentModel4Encoder::from_counts(&counts, 2, 8, 2).unwrap();
    assert_eq!(m.get_freqs(), vec![2, 1, 1]);
    let mut norm = Vec::new();
    let mut folded = Vec::new();
    // State 2^32, symbol 1 (freq 1, cumul 2): below its upper bound 1 * 2^62,
    // so no renormalisation, and the state becomes (2^32 / 1) * 4 + 2 + 0.
    let s = encode_with_model(&m, 1 << 32, 1, &mut norm, &mut folded);
    assert_eq!(s, (1u64 << 34) + 2);
    assert!(norm.is_empty());
    // symbol 0: freq 2, cumul 0: (s / 2) * 4 + s % 2.
    let s2 = encode_with_model(&m, s, 0, &mut norm, &mut folded);
    assert_eq!(s2, (s / 2) * 4 + s % 2);
    // A state at the upper bound of symbol 2 (1 * 2^62) is renormalised first.
    let s3 = encode_with_model(&m, (1 << 62) + 5, 2, &mut norm, &mut folded);
    assert_eq!(norm, vec![5u32]);
    assert_eq!(s3, (1u64 << 30) * 4 + 3);
}

#[test]
fn zipf_sequence_encodes_close_to_its_entropy() {
    // A deterministic Zipf(1.2) sample of 10 000 symbols over 1..=500.
    let support = 500usize;
    let weights: Vec<f64> = (1..=support).map(|k| 1.0 / (k as f64).powf(1.2)).collect();
    let total: f64 = weights.iter().sum();
    let mut cdf = Vec::with_capacity(support);
    let mut acc = 0.0;
    for w in &weights {
        acc += w / total;
        cdf.push(acc);
    }
    let mut seed: u64 = 0x2545_F491_4F6C_DD1D;
    let mut source = Vec::with_capacity(10_000);
    for _ in 0..10_000 {
        seed ^= seed << 13;
        seed ^= seed >> 7;
        seed ^= seed << 17;
        let u = (seed >> 11) as f64 / (1u64 << 53) as f64;
        let k = cdf.iter().position(|c| u <= *c).unwrap_or(support - 1);
        source.push(k as u64 + 1);
    }
    let mut counts = std::collections::HashMap::new();
    for s in &source {
        *counts.entry(*s).or_insert(0usize) += 1;
    }
    let n = source.len() as f64;
    let entropy_bits: f64 = counts
        .values()
        .map(|c| {
            let p = *c as f64 / n;
            -(*c as f64) * p.log2()
        })
        .sum();

    let mut builder = ANSModel4EncoderBuilder::new();
    for s in &source {
        builder.push_symbol(*s, BVGraphComponent::Outdegree).unwrap();
    }
    let model = builder.build();
    let radix = model.get_radix(BVGraphComponent::Outdegree) as f64;
    let mut encoder = ANSEncoder::new(model);
    for s in &source {
        encoder.encode(*s, BVGraphComponent::Outdegree).unwrap();
    }
    let encoded_bits = 32.0 * encoder.normalized_bits.len() as f64
        + radix * encoder.folded_bits.len() as f64
        + 64.0;
    assert!(
        encoded_bits <= 1.05 * entropy_bits,
        "{} bits against an entropy of {}",
        encoded_bits,
        entropy_bits
    );

    let prelude = encoder.into_prelude();
    let dmodel = ANSModel4Decoder::new(&prelude.tables);
    let mut decoder = ANSDecoder::new(&prelude, &dmodel);
    let mut decoded = Vec::new();
    for _ in 0..source.len() {
        decoded.push(decoder.decode(BVGraphComponent::Outdegree).unwrap());
    }
    decoded.reverse();
    assert_eq!(decoded, source);
}

#[test]
fn single_sequence_round_trips_with_default_folding() {
    // F = 2, R = 8: every symbol of the sequence is a singleton.
    let source = vec![1_u64, 1, 1, 2, 2, 2, 3, 3, 4, 5];
    let counts = vec![0usize, 3, 3, 2, 1, 1];
    let outdegree = ANSComponentModel4Encoder::from_counts(&counts, 2, 8, 4).unwrap();
    assert_eq!(outdegree.get_freqs().iter().map(|f| *f as u64).sum::<u64>(), 16);
    let mut encoder = ANSEncoder::new(model_with_outdegree(outdegree));
    for s in &source {
        encoder.encode(*s, BVGraphComponent::Outdegree).unwrap();
    }
    assert!(encoder.folded_bits.is_empty());
    let prelude = encoder.into_prelude();
    let model = ANSModel4Decoder::new(&prelude.tables);
    let mut decoder = ANSDecoder::new(&prelude, &model);
    let mut decoded = Vec::new();
    for _ in 0..source.len() {
        decoded.push(decoder.decode(BVGraphComponent::Outdegree).unwrap());
    }
    decoded.reverse();
    assert_eq!(decoded, source);
}

#[test]
fn prelude_tables_are_validated() {
    let mut builder = ANSModel4EncoderBuilder::new();
    builder.push_symbol(3, BVGraphComponent::Outdegree).unwrap();
    let model = builder.build();
    assert!(folded_streaming_rans::model4encoder::tables_are_valid(&model.tables));
    let mut broken = model.tables.clone();
    broken[0].table[0].cumul_freq += 1;
    assert!(!folded_streaming_rans::model4encoder::tables_are_valid(&broken));
    let mut short = model.tables.clone();
    short.pop();
    assert!(!folded_streaming_rans::model4encoder::tables_are_valid(&short));
}

#[test]
fn rare_symbols_are_scaled_first() {
    // Counts 3, 1, 4 in a frame of 4: visited by ascending count (1, 3, 4),
    // the frequencies are 1, 1, 2; by index they would be 2, 1, 1.
    let m = ANSComponentModel4Encoder::from_counts(&vec![3usize, 1, 4], 2, 8, 2).unwrap();
    assert_eq!(m.get_freqs(), vec![1, 1, 2]);
    let cumuls: Vec<u32> = m.table.iter().map(|e| e.cumul_freq).collect();
    assert_eq!(cumuls, vec![0, 1, 2]);
    assert_eq!(m.table[2].upperbound, 2u128 << 62);
    assert_eq!(m.table[2].quasi_folded, 2 * 256);
}
