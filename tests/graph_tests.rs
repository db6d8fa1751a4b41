use folded_streaming_rans::{
    ANSBVGraphDecoderFactory, ANSBVGraphSeqDecoderFactory, ANSDecoder, AnsError,
    BVGraphComponent, BVGraphModelBuilder, BVGraphWriter, CostEstimator, EntropyEstimator,
    Log2Estimator,
};

type C = BVGraphComponent;

/// The writes of a node with no reference and no intervals: outdegree, then,
/// if it has successors, reference offset, block count, interval count, the
/// first residual and the gaps of the others.
fn node_writes(node: u64, succ: &[u64]) -> Vec<(C, u64)> {
    let mut w = vec![(C::Outdegree, succ.len() as u64)];
    if !succ.is_empty() {
        w.push((C::ReferenceOffset, 0));
        w.push((C::BlockCount, 0));
        w.push((C::IntervalCount, 0));
        let first = succ[0] as i64 - node as i64;
        let folded = if first >= 0 { 2 * first as u64 } else { 2 * (-first) as u64 - 1 };
        w.push((C::FirstResidual, folded));
        for k in 1..succ.len() {
            w.push((C::Residual, succ[k] - succ[k - 1] - 1));
        }
    }
    w
}

fn read_node(decoder: &mut ANSDecoder<'_>, node: u64) -> Vec<u64> {
    let d = decoder.decode(C::Outdegree).unwrap() as usize;
    let mut succ = Vec::new();
    if d > 0 {
        assert_eq!(decoder.decode(C::ReferenceOffset).unwrap(), 0);
        assert_eq!(decoder.decode(C::BlockCount).unwrap(), 0);
        assert_eq!(decoder.decode(C::IntervalCount).unwrap(), 0);
        let f = decoder.decode(C::FirstResidual).unwrap() as i64;
        let first = if f % 2 == 0 { f / 2 } else { -(f + 1) / 2 };
        succ.push((node as i64 + first) as u64);
        for _ in 1..d {
            let gap = decoder.decode(C::Residual).unwrap();
            let last = *succ.last().unwrap();
            succ.push(last + gap + 1);
        }
    }
    succ
}

fn encode_graph(graph: &[Vec<u64>]) -> (folded_streaming_rans::Prelude, Vec<folded_streaming_rans::ANSCompressorPhase>) {
    let mut mb = BVGraphModelBuilder::new(CostEstimator::Log2(Log2Estimator::new()));
    for (node, succ) in graph.iter().enumerate() {
        for (c, v) in node_writes(node as u64, succ) {
            mb.write(c, v).unwrap();
        }
    }
    let model = mb.build();
    let mut writer = BVGraphWriter::new(model);
    for (node, succ) in graph.iter().enumerate() {
        for (c, v) in node_writes(node as u64, succ) {
            writer.write(c, v).unwrap();
        }
    }
    writer.flush();
    let (encoder, phases) = writer.into_inner();
    (encoder.into_prelude(), phases)
}

#[test]
fn random_access_from_phase() {
    let graph = vec![vec![1u64, 2], vec![2, 3, 4], vec![0]];
    let (prelude, phases) = encode_graph(&graph);
    // One checkpoint per node and a trailing one.
    assert_eq!(phases.len(), 4);
    let factory = ANSBVGraphDecoderFactory::new(&prelude, phases);
    for node in 0..3 {
        let mut decoder = factory.new_decoder(node).unwrap();
        assert_eq!(read_node(&mut decoder, node as u64), graph[node]);
    }
    assert_eq!(factory.new_decoder(4).err(), Some(AnsError::ParameterError));
}

#[test]
fn random_access_matches_sequential_decoding() {
    let graph: Vec<Vec<u64>> = (0..40u64)
        .map(|n| (0..(n % 5)).map(|k| (n * 3 + k * k + 1) % 41).collect::<Vec<_>>())
        .map(|mut v| {
            v.sort();
            v.dedup();
            v
        })
        .collect();
    let (prelude, phases) = encode_graph(&graph);
    assert_eq!(phases.len(), graph.len() + 1);
    // The last phase is the final state.
    assert_eq!(phases.last().unwrap().state, prelude.state);
    let seq_factory = ANSBVGraphSeqDecoderFactory::new(&prelude);
    let mut seq = seq_factory.new_decoder().unwrap();
    let mut sequential = vec![Vec::new(); graph.len()];
    for node in (0..graph.len()).rev() {
        sequential[node] = read_node(&mut seq, node as u64);
        // Checkpoint `node` follows node `node`: after reading it, the
        // decoder is at the checkpoint of the node before.
        if node > 0 {
            assert_eq!(seq.state, phases[node - 1].state);
            assert_eq!(seq.last_unfolded_pos, phases[node - 1].folded);
            assert_eq!(seq.last_normalized_pos, phases[node - 1].normalized);
        } else {
            assert_eq!(seq.state, 1 << 32);
            assert_eq!(seq.last_unfolded_pos, 0);
            assert_eq!(seq.last_normalized_pos, 0);
        }
    }
    let factory = ANSBVGraphDecoderFactory::new(&prelude, phases);
    for node in 0..graph.len() {
        let mut decoder = factory.new_decoder(node).unwrap();
        let succ = read_node(&mut decoder, node as u64);
        assert_eq!(succ, sequential[node]);
        assert_eq!(succ, graph[node]);
    }
}

#[test]
fn phases_are_monotone() {
    let graph: Vec<Vec<u64>> = (0..30u64).map(|n| (0..(n % 7)).map(|k| n + 10 * k + 1000).collect()).collect();
    let (prelude, phases) = encode_graph(&graph);
    for w in phases.windows(2) {
        assert!(w[0].folded <= w[1].folded);
        assert!(w[0].normalized <= w[1].normalized);
    }
    let last = phases.last().unwrap();
    assert_eq!(last.folded, prelude.folded_bits.len());
    assert_eq!(last.normalized, prelude.normalized_bits.len());
}

#[test]
fn intervals_are_read_in_order() {
    // A node with two intervals: starts 3 and 9, lengths 4 and 2.
    let writes = vec![
        (C::Outdegree, 6u64),
        (C::ReferenceOffset, 0),
        (C::BlockCount, 0),
        (C::IntervalCount, 2),
        (C::IntervalStart, 3),
        (C::IntervalLen, 4),
        (C::IntervalStart, 9),
        (C::IntervalLen, 2),
    ];
    let mut mb = BVGraphModelBuilder::new(CostEstimator::Log2(Log2Estimator::new()));
    for (c, v) in &writes {
        mb.write(*c, *v).unwrap();
    }
    let mut writer = BVGraphWriter::new(mb.build());
    for (c, v) in &writes {
        writer.write(*c, *v).unwrap();
    }
    writer.flush();
    let (encoder, phases) = writer.into_inner();
    let prelude = encoder.into_prelude();
    let factory = ANSBVGraphDecoderFactory::new(&prelude, phases);
    let mut d = factory.new_decoder(0).unwrap();
    for (c, v) in &writes {
        assert_eq!(d.decode(*c).unwrap(), *v);
    }
}

#[test]
fn writer_rejects_values_outside_the_model() {
    let mut mb = BVGraphModelBuilder::new(CostEstimator::Log2(Log2Estimator::new()));
    mb.write(C::Outdegree, 1).unwrap();
    mb.write(C::Residual, 7).unwrap();
    assert_eq!(mb.write(C::Residual, u64::MAX), Err(AnsError::ParameterError));
    let mut writer = BVGraphWriter::new(mb.build());
    assert_eq!(writer.write(C::Outdegree, 2), Err(AnsError::ParameterError));
    assert!(writer.write(C::Outdegree, 1).is_ok());
    assert_eq!(writer.write(C::Residual, 8), Err(AnsError::ParameterError));
    assert!(writer.write(C::Residual, 7).is_ok());
    assert_eq!(writer.data[8], vec![7]);
    // The first outdegree records no checkpoint.
    assert!(writer.phases.is_empty());
}

#[test]
fn log2_estimator_costs() {
    let e = Log2Estimator::new();
    assert_eq!(e.cost(0), 0);
    assert_eq!(e.cost(1), 1);
    assert_eq!(e.cost(6), 2);
    assert_eq!(e.cost(511), 9);
    // 1000 under F = 2, R = 8 has one tail chunk of 8 bits.
    assert_eq!(e.cost(1000), 9 + 8);
}

#[test]
fn entropy_estimator_costs() {
    let mut mb = BVGraphModelBuilder::new(CostEstimator::Log2(Log2Estimator::new()));
    for v in [1u64, 1, 1, 1, 1, 1, 2, 3] {
        mb.write(C::Outdegree, v).unwrap();
    }
    let model = mb.build();
    let e = EntropyEstimator::new(&model);
    let l = model.get_log2_frame_size(C::Outdegree);
    let t = &model.tables[0];
    let f1 = t.table[1].freq as usize;
    let floor_log2 = |x: usize| (usize::BITS - 1 - x.leading_zeros()) as usize;
    assert_eq!(e.cost(C::Outdegree, 1), l - floor_log2(f1));
    assert!(e.cost(C::Outdegree, 1) <= e.cost(C::Outdegree, 3));
    let w = BVGraphWriter::new(model);
    assert_eq!(w.mock().costs, e.costs);
}

#[test]
fn decoder_moves_to_phases() {
    let graph = vec![vec![1u64, 2], vec![2, 3, 4], vec![0]];
    let (prelude, phases) = encode_graph(&graph);
    let factory = ANSBVGraphSeqDecoderFactory::new(&prelude);
    let mut d = factory.new_decoder().unwrap();
    // The sequential decoder reads the last node first.
    assert_eq!(read_node(&mut d, 2), graph[2]);
    d.set_compressor_at_phase(&phases[0]).unwrap();
    assert_eq!(read_node(&mut d, 0), graph[0]);
    for (v, outdegree) in [2u64, 3, 1].iter().enumerate() {
        assert_eq!(d.decode_from_phase(phases[v], C::Outdegree), Ok(*outdegree));
    }
    let bad = folded_streaming_rans::ANSCompressorPhase { state: 5, folded: 0, normalized: 0 };
    let before = (d.state, d.last_unfolded_pos, d.last_normalized_pos);
    assert_eq!(d.set_compressor_at_phase(&bad), Err(AnsError::ParameterError));
    assert_eq!(d.decode_from_phase(bad, C::Outdegree), Err(AnsError::ParameterError));
    let far = folded_streaming_rans::ANSCompressorPhase {
        state: 1 << 40,
        folded: prelude.folded_bits.len() + 1,
        normalized: 0,
    };
    assert_eq!(d.set_compressor_at_phase(&far), Err(AnsError::ParameterError));
    assert_eq!((d.state, d.last_unfolded_pos, d.last_normalized_pos), before);
}

#[test]
fn values_before_the_first_node_are_refused() {
    let mut mb = BVGraphModelBuilder::new(CostEstimator::Log2(Log2Estimator::new()));
    mb.write(C::Outdegree, 1).unwrap();
    mb.write(C::Residual, 7).unwrap();
    let mut writer = BVGraphWriter::new(mb.build());
    assert_eq!(writer.write(C::Residual, 7), Err(AnsError::ParameterError));
    writer.write(C::Outdegree, 1).unwrap();
    writer.flush();
    assert_eq!(writer.write(C::Residual, 7), Err(AnsError::ParameterError));
    // One node and a flush: its checkpoint and the trailing one.
    assert_eq!(writer.phases.len(), 2);
}
