//! The graph-side writers: one that feeds the model builder, and one that
//! buffers the values of each node and encodes them, at the next node or at
//! flush, in the reverse order that lets the decoder read them forwards.
use crate::builder::ANSModel4EncoderBuilder;
use crate::codec::valid_state;
use crate::component::{BVGraphComponent, COMPONENTS};
use crate::encoder::{all_encodable, encode_writes, ANSCompressorPhase, ANSEncoder};
use crate::decoder::{decode_steps, lemma_encode_writes_append, lemma_round_trip, rev_components, rev_symbols};
use crate::model4decoder::ANSModel4Decoder;
use crate::error::AnsError;
use crate::estimators::{CostEstimator, EntropyEstimator};
use crate::model4encoder::ANSModel4Encoder;
use crate::{INTERVAL_LOWER_BOUND, MAX_RAW_SYMBOL};
use vstd::prelude::*;

verus! {

/// The values of `s`, last first, each tagged with component `c`.
pub open spec fn rev_tagged(c: BVGraphComponent, s: Seq<u64>) -> Seq<(BVGraphComponent, u64)> {
    Seq::new(s.len(), |i: int| (c, s[s.len() - 1 - i]))
}

/// The interval values of the first `n` intervals, last interval first, and
/// within an interval its length before its start.
pub open spec fn interval_pairs_rev(starts: Seq<u64>, lens: Seq<u64>, n: nat) -> Seq<
    (BVGraphComponent, u64),
>
    decreases n,
{
    if n == 0 {
        Seq::empty()
    } else {
        let i = (n - 1) as int;
        let len_part = if i < lens.len() {
            seq![(BVGraphComponent::IntervalLen, lens[i])]
        } else {
            Seq::empty()
        };
        let start_part = if i < starts.len() {
            seq![(BVGraphComponent::IntervalStart, starts[i])]
        } else {
            Seq::empty()
        };
        len_part + start_part + interval_pairs_rev(starts, lens, (n - 1) as nat)
    }
}

/// The order in which the buffered values of a node are encoded: the exact
/// reverse of the order in which they are read back.
pub open spec fn burst(data: Seq<Seq<u64>>) -> Seq<(BVGraphComponent, u64)> {
    let n = if data[5].len() >= data[6].len() {
        data[5].len()
    } else {
        data[6].len()
    };
    rev_tagged(BVGraphComponent::Residual, data[8]) + rev_tagged(
        BVGraphComponent::FirstResidual,
        data[7],
    ) + interval_pairs_rev(data[5], data[6], n) + rev_tagged(
        BVGraphComponent::IntervalCount,
        data[4],
    ) + rev_tagged(BVGraphComponent::Blocks, data[3]) + rev_tagged(
        BVGraphComponent::BlockCount,
        data[2],
    ) + rev_tagged(BVGraphComponent::ReferenceOffset, data[1]) + rev_tagged(
        BVGraphComponent::Outdegree,
        data[0],
    )
}

/// The views of the buffers.
pub open spec fn buffers_view(data: Seq<Vec<u64>>) -> Seq<Seq<u64>> {
    Seq::new(data.len(), |c: int| data[c]@)
}

/// Every buffered value can be encoded in its component.
pub open spec fn buffers_encodable(em: ANSModel4Encoder, data: Seq<Vec<u64>>) -> bool {
    forall|c: int, i: int|
        0 <= c < COMPONENTS && 0 <= i < data[c]@.len() ==> em.tables@[c].can_encode(
            #[trigger] data[c]@[i] as nat,
        )
}

/// Appends the values of `s`, last first, tagged with component `c`.
fn push_rev_tagged(
    out: &mut Vec<(BVGraphComponent, u64)>,
    c: BVGraphComponent,
    s: &Vec<u64>,
    Ghost(em): Ghost<ANSModel4Encoder>,
)
    requires
        all_encodable(em, old(out)@),
        forall|i: int| 0 <= i < s@.len() ==> em.model(c).can_encode(#[trigger] s@[i] as nat),
    ensures
        final(out)@ == old(out)@ + rev_tagged(c, s@),
        all_encodable(em, final(out)@),
{
    let ghost start = out@;
    let mut j = s.len();
    while j > 0
        invariant
            j <= s@.len(),
            out@ == start + rev_tagged(c, s@).take(s@.len() - j),
            all_encodable(em, out@),
            forall|i: int| 0 <= i < s@.len() ==> em.model(c).can_encode(#[trigger] s@[i] as nat),
        decreases j,
    {
        j = j - 1;
        out.push((c, s[j]));
        assert(rev_tagged(c, s@).take(s@.len() - j) =~= rev_tagged(c, s@).take(
            s@.len() - j - 1,
        ).push((c, s@[j as int])));
        assert(all_encodable(em, out@)) by {
            assert forall|i: int| 0 <= i < out@.len() implies em.model(
                (#[trigger] out@[i]).0,
            ).can_encode(out@[i].1 as nat) by {
                if i == out@.len() - 1 {
                    assert(out@[i] == (c, s@[j as int]));
                }
            }
        }
    }
    assert(rev_tagged(c, s@).take(s@.len() as int) =~= rev_tagged(c, s@));
}

/// Appends the interval values, last interval first.
fn push_interval_pairs(
    out: &mut Vec<(BVGraphComponent, u64)>,
    starts: &Vec<u64>,
    lens: &Vec<u64>,
    Ghost(em): Ghost<ANSModel4Encoder>,
)
    requires
        all_encodable(em, old(out)@),
        forall|i: int|
            0 <= i < starts@.len() ==> em.model(BVGraphComponent::IntervalStart).can_encode(
                #[trigger] starts@[i] as nat,
            ),
        forall|i: int|
            0 <= i < lens@.len() ==> em.model(BVGraphComponent::IntervalLen).can_encode(
                #[trigger] lens@[i] as nat,
            ),
    ensures
        final(out)@ == old(out)@ + interval_pairs_rev(
            starts@,
            lens@,
            if starts@.len() >= lens@.len() {
                starts@.len()
            } else {
                lens@.len()
            },
        ),
        all_encodable(em, final(out)@),
{
    let n = if starts.len() >= lens.len() {
        starts.len()
    } else {
        lens.len()
    };
    let ghost start = out@;
    let mut i = n;
    while i > 0
        invariant
            i <= n,
            start + interval_pairs_rev(starts@, lens@, n as nat) == out@ + interval_pairs_rev(
                starts@,
                lens@,
                i as nat,
            ),
            all_encodable(em, out@),
            forall|k: int|
                0 <= k < starts@.len() ==> em.model(BVGraphComponent::IntervalStart).can_encode(
                    #[trigger] starts@[k] as nat,
                ),
            forall|k: int|
                0 <= k < lens@.len() ==> em.model(BVGraphComponent::IntervalLen).can_encode(
                    #[trigger] lens@[k] as nat,
                ),
        decreases i,
    {
        let ghost before = out@;
        let k = i - 1;
        let ghost len_part = if k < lens@.len() {
            seq![(BVGraphComponent::IntervalLen, lens@[k as int])]
        } else {
            Seq::empty()
        };
        let ghost start_part = if k < starts@.len() {
            seq![(BVGraphComponent::IntervalStart, starts@[k as int])]
        } else {
            Seq::empty()
        };
        if k < lens.len() {
            out.push((BVGraphComponent::IntervalLen, lens[k]));
        }
        let ghost mid = out@;
        assert(mid =~= before + len_part);
        if k < starts.len() {
            out.push((BVGraphComponent::IntervalStart, starts[k]));
        }
        assert(out@ =~= before + len_part + start_part);
        assert(interval_pairs_rev(starts@, lens@, i as nat) == len_part + start_part
            + interval_pairs_rev(starts@, lens@, k as nat));
        assert(before + interval_pairs_rev(starts@, lens@, i as nat) =~= out@ + interval_pairs_rev(
            starts@,
            lens@,
            k as nat,
        ));
        assert(all_encodable(em, out@)) by {
            assert forall|t: int| 0 <= t < out@.len() implies em.model(
                (#[trigger] out@[t]).0,
            ).can_encode(out@[t].1 as nat) by {
                if t >= before.len() {
                    if t < mid.len() {
                        assert(out@[t] == mid[t]);
                    }
                } else {
                    assert(out@[t] == before[t]);
                }
            }
        }
        i = k;
    }
    assert(out@ + interval_pairs_rev(starts@, lens@, 0) =~= out@);
}

/// Encodes the writes `ws` in order.
fn encode_list(encoder: &mut ANSEncoder, ws: &Vec<(BVGraphComponent, u64)>)
    requires
        old(encoder).wf(),
        all_encodable(old(encoder).model, ws@),
    ensures
        final(encoder).wf(),
        final(encoder).model == old(encoder).model,
        final(encoder).coder_view() == encode_writes(old(encoder).model, ws@, old(encoder).coder_view()),
{
    let ghost v0 = encoder.coder_view();
    let ghost em = encoder.model;
    let mut k: usize = 0;
    while k < ws.len()
        invariant
            encoder.wf(),
            encoder.model == em,
            k <= ws@.len(),
            all_encodable(em, ws@),
            encoder.coder_view() == encode_writes(em, ws@.take(k as int), v0),
        decreases ws@.len() - k,
    {
        let (c, s) = ws[k];
        assert(em.model(ws@[k as int].0).can_encode(ws@[k as int].1 as nat));
        let r = encoder.encode(s, c);
        assert(ws@.take(k + 1).drop_last() =~= ws@.take(k as int));
        assert(ws@.take(k + 1).last() == ws@[k as int]);
        k = k + 1;
    }
    assert(ws@.take(ws@.len() as int) =~= ws@);
}

/// The coder view of a fresh encoder: the lowest state and empty streams.
pub open spec fn initial_view() -> (nat, Seq<u32>, Seq<u8>) {
    (INTERVAL_LOWER_BOUND as nat, Seq::empty(), Seq::empty())
}

/// The checkpoint of the view reached by encoding `ws` from a fresh encoder.
pub open spec fn phase_after(em: ANSModel4Encoder, ws: Seq<(BVGraphComponent, u64)>) -> ANSCompressorPhase {
    let v = encode_writes(em, ws, initial_view());
    ANSCompressorPhase { state: v.0 as u64, folded: v.2.len() as usize, normalized: v.1.len() as usize }
}

/// The current checkpoint of encoder `e`: its state and the lengths of its streams.
pub open spec fn checkpoint(e: ANSEncoder) -> ANSCompressorPhase {
    ANSCompressorPhase {
        state: e.state,
        folded: e.folded_bits@.len() as usize,
        normalized: e.normalized_bits@.len() as usize,
    }
}

/// Writes the values of each node to buffers, and encodes each node's values
/// when the next node starts or at flush, recording a checkpoint after each.
#[derive(Clone)]
pub struct BVGraphWriter {
    /// One buffer per component, in wire order.
    pub data: Vec<Vec<u64>>,
    /// The node whose values are being buffered, if any.
    pub curr_node: Option<usize>,
    /// The encoder.
    pub encoder: ANSEncoder,
    /// One checkpoint per node encoded.
    pub phases: Vec<ANSCompressorPhase>,
    /// Prices the values written.
    pub mock_writer: EntropyEstimator,
    /// The writes encoded so far, in encoding order.
    pub history: Ghost<Seq<(BVGraphComponent, u64)>>,
    /// For each checkpoint, the number of writes of the history it follows.
    pub marks: Ghost<Seq<nat>>,
}

impl BVGraphWriter {
    /// Well-formedness: encodable buffers, and checkpoints that only move
    /// forward and lie within the streams.
    pub open spec fn wf(&self) -> bool {
        &&& self.encoder.wf()
        &&& self.mock_writer.wf()
        &&& self.data@.len() == COMPONENTS
        &&& buffers_encodable(self.encoder.model, self.data@)
        &&& self.curr_node matches Some(i) ==> i == self.phases@.len()
        &&& self.curr_node is None ==> forall|c: int|
            0 <= c < COMPONENTS ==> (#[trigger] self.data@[c])@.len() == 0
        &&& forall|i: int, j: int|
            0 <= i < j < self.phases@.len() ==> (#[trigger] self.phases@[i]).folded
                <= (#[trigger] self.phases@[j]).folded && self.phases@[i].normalized
                <= self.phases@[j].normalized
        &&& forall|i: int|
            0 <= i < self.phases@.len() ==> (#[trigger] self.phases@[i]).folded
                <= self.encoder.folded_bits@.len() && self.phases@[i].normalized
                <= self.encoder.normalized_bits@.len() && valid_state(
                self.phases@[i].state as nat,
            )
        &&& self.history_wf()
    }

    /// The encoder's view is that of its history, and each checkpoint is that
    /// of a prefix of the history, the prefixes growing with the checkpoints.
    pub open spec fn history_wf(&self) -> bool {
        let em = self.encoder.model;
        let h = self.history@;
        &&& all_encodable(em, h)
        &&& self.encoder.coder_view() == encode_writes(em, h, initial_view())
        &&& self.marks@.len() == self.phases@.len()
        &&& forall|i: int| 0 <= i < self.marks@.len() ==> #[trigger] self.marks@[i] <= h.len()
        &&& forall|i: int, j: int|
            0 <= i < j < self.marks@.len() ==> #[trigger] self.marks@[i] <= #[trigger] self.marks@[j]
        &&& forall|i: int|
            0 <= i < self.phases@.len() ==> #[trigger] self.phases@[i] == phase_after(
                em,
                h.take(self.marks@[i] as int),
            )
    }

    /// Decoding from checkpoint `i`, over the writer's streams, reads the
    /// values of the node encoded just before it (node `i`; nothing for the
    /// trailing checkpoint) in the order in which they
    /// are read back (the reverse of the order in which they were encoded),
    /// and reaches the view of checkpoint `i - 1` (for the first checkpoint,
    /// that of a fresh encoder).
    pub proof fn lemma_node_from_phase(&self, dm: ANSModel4Decoder, i: int)
        requires
            self.wf(),
            dm.built_from(self.encoder.model.tables@),
            0 <= i < self.phases@.len(),
        ensures
            ({
                let em = self.encoder.model;
                let h = self.history@;
                let start = if i == 0 {
                    0
                } else {
                    self.marks@[i - 1] as int
                };
                let node = h.subrange(start, self.marks@[i] as int);
                let p = self.phases@[i];
                let view = (
                    p.state as nat,
                    self.encoder.normalized_bits@.take(p.normalized as int),
                    self.encoder.folded_bits@.take(p.folded as int),
                );
                decode_steps(dm, rev_components(node), view) == Some(
                    (rev_symbols(node), encode_writes(em, h.take(start), initial_view())),
                )
            }),
    {
        let em = self.encoder.model;
        let h = self.history@;
        let start = if i == 0 {
            0
        } else {
            self.marks@[i - 1] as int
        };
        let end = self.marks@[i] as int;
        assert(start <= end) by {
            if i > 0 {
                assert(self.marks@[i - 1] <= self.marks@[i]);
            }
        }
        let before = h.take(start);
        let node = h.subrange(start, end);
        let mid = h.take(end);
        let rest = h.subrange(end, h.len() as int);
        assert(mid =~= before + node);
        assert(h =~= mid + rest);
        assert(forall|a: int, b: int, t: int|
            0 <= a <= b <= h.len() && 0 <= t < b - a ==> #[trigger] h.subrange(a, b)[t] == h[a + t]);
        assert(all_encodable(em, before));
        assert(all_encodable(em, node));
        assert(all_encodable(em, rest));
        assert(all_encodable(em, mid));
        crate::bits::lemma_pow2_facts();
        let init = initial_view();
        crate::encoder::lemma_encode_writes_valid(em, before, init);
        let vb = encode_writes(em, before, init);
        lemma_encode_writes_append(em, before, node, init);
        crate::encoder::lemma_encode_writes_valid(em, node, vb);
        let vm = encode_writes(em, mid, init);
        lemma_encode_writes_append(em, mid, rest, init);
        crate::encoder::lemma_encode_writes_valid(em, rest, vm);
        assert(self.phases@[i] == phase_after(em, mid));
        let fin = encode_writes(em, h, init);
        assert(fin == encode_writes(em, rest, vm));
        assert(self.encoder.coder_view() == fin);
        assert(vm == encode_writes(em, node, vb));
        assert(vm.1.len() <= self.encoder.normalized_bits@.len());
        assert(vm.2.len() <= self.encoder.folded_bits@.len());
        let p = self.phases@[i];
        assert(self.encoder.normalized_bits.len() == self.encoder.normalized_bits@.len());
        assert(self.encoder.folded_bits.len() == self.encoder.folded_bits@.len());
        assert(p.state as nat == vm.0);
        assert(p.normalized as int == vm.1.len());
        assert(p.folded as int == vm.2.len());
        assert(self.encoder.normalized_bits@.take(p.normalized as int) == vm.1);
        assert(self.encoder.folded_bits@.take(p.folded as int) == vm.2);
        lemma_round_trip(em, dm, node, vb);
    }

    /// Creates a writer that encodes with `model`.
    pub fn new(model: ANSModel4Encoder) -> (r: Self)
        requires
            model.wf(),
        ensures
            r.wf(),
            r.encoder.model == model,
            r.curr_node is None,
            r.phases@.len() == 0,
            forall|c: int| 0 <= c < COMPONENTS ==> (#[trigger] r.data@[c])@.len() == 0,
    {
        let mock_writer = EntropyEstimator::new(&model);
        let encoder = ANSEncoder::new(model);
        let data = empty_buffers();
        BVGraphWriter {
            data,
            curr_node: None,
            encoder,
            phases: Vec::new(),
            mock_writer,
            history: Ghost(Seq::empty()),
            marks: Ghost(Seq::empty()),
        }
    }

    /// Consumes the writer and returns the encoder and the checkpoints.
    pub fn into_inner(self) -> (r: (ANSEncoder, Vec<ANSCompressorPhase>))
        ensures
            r.0 == self.encoder,
            r.1 == self.phases,
    {
        (self.encoder, self.phases)
    }

    /// Returns an estimator that prices values as this writer does.
    pub fn mock(&self) -> (r: EntropyEstimator)
        requires
            self.wf(),
        ensures
            r.follows(self.encoder.model),
    {
        EntropyEstimator::new(&self.encoder.model)
    }

    /// Encodes the buffered values and records a checkpoint.
    fn emit(&mut self)
        requires
            old(self).wf(),
        ensures
            final(self).encoder.wf(),
            final(self).mock_writer == old(self).mock_writer,
            final(self).data == old(self).data,
            final(self).curr_node == old(self).curr_node,
            final(self).encoder.model == old(self).encoder.model,
            final(self).encoder.coder_view() == encode_writes(
                old(self).encoder.model,
                burst(buffers_view(old(self).data@)),
                old(self).encoder.coder_view(),
            ),
            final(self).history_wf(),
            final(self).history@ == old(self).history@ + burst(buffers_view(old(self).data@)),
            final(self).phases@ == old(self).phases@.push(
                ANSCompressorPhase {
                    state: final(self).encoder.state,
                    folded: final(self).encoder.folded_bits@.len() as usize,
                    normalized: final(self).encoder.normalized_bits@.len() as usize,
                },
            ),
            forall|i: int, j: int|
                0 <= i < j < final(self).phases@.len() ==> (#[trigger] final(self).phases@[i]).folded
                    <= (#[trigger] final(self).phases@[j]).folded
                    && final(self).phases@[i].normalized <= final(self).phases@[j].normalized,
            forall|i: int|
                0 <= i < final(self).phases@.len() ==> (#[trigger] final(self).phases@[i]).folded
                    <= final(self).encoder.folded_bits@.len() && final(self).phases@[i].normalized
                    <= final(self).encoder.normalized_bits@.len() && valid_state(
                    final(self).phases@[i].state as nat,
                ),
    {
        let ghost em = self.encoder.model;
        let ghost dv = buffers_view(self.data@);
        let mut list: Vec<(BVGraphComponent, u64)> = Vec::new();
        proof {
            assert forall|c: int, i: int|
                0 <= c < COMPONENTS && 0 <= i < self.data@[c]@.len() implies em.tables@[c].can_encode(
                #[trigger] self.data@[c]@[i] as nat,
            ) by {}
        }
        assert(em.model(BVGraphComponent::Residual) == em.tables@[8]);
        assert(em.model(BVGraphComponent::FirstResidual) == em.tables@[7]);
        assert(em.model(BVGraphComponent::IntervalLen) == em.tables@[6]);
        assert(em.model(BVGraphComponent::IntervalStart) == em.tables@[5]);
        assert(em.model(BVGraphComponent::IntervalCount) == em.tables@[4]);
        assert(em.model(BVGraphComponent::Blocks) == em.tables@[3]);
        assert(em.model(BVGraphComponent::BlockCount) == em.tables@[2]);
        assert(em.model(BVGraphComponent::ReferenceOffset) == em.tables@[1]);
        assert(em.model(BVGraphComponent::Outdegree) == em.tables@[0]);
        push_rev_tagged(&mut list, BVGraphComponent::Residual, &self.data[8], Ghost(em));
        push_rev_tagged(&mut list, BVGraphComponent::FirstResidual, &self.data[7], Ghost(em));
        push_interval_pairs(&mut list, &self.data[5], &self.data[6], Ghost(em));
        push_rev_tagged(&mut list, BVGraphComponent::IntervalCount, &self.data[4], Ghost(em));
        push_rev_tagged(&mut list, BVGraphComponent::Blocks, &self.data[3], Ghost(em));
        push_rev_tagged(&mut list, BVGraphComponent::BlockCount, &self.data[2], Ghost(em));
        push_rev_tagged(&mut list, BVGraphComponent::ReferenceOffset, &self.data[1], Ghost(em));
        push_rev_tagged(&mut list, BVGraphComponent::Outdegree, &self.data[0], Ghost(em));
        assert(list@ =~= burst(dv));
        let ghost old_phases = self.phases@;
        let ghost old_f = self.encoder.folded_bits@.len();
        let ghost old_n = self.encoder.normalized_bits@.len();
        encode_list(&mut self.encoder, &list);
        proof {
            crate::encoder::lemma_encode_writes_valid(em, list@, (
                old(self).encoder.state as nat,
                old(self).encoder.normalized_bits@,
                old(self).encoder.folded_bits@,
            ));
        }
        let p = self.encoder.get_current_compressor_phase();
        self.phases.push(p);
        let ghost old_history = self.history@;
        let ghost new_history = old_history + list@;
        proof {
            lemma_encode_writes_append(em, old_history, list@, initial_view());
            assert(all_encodable(em, new_history)) by {
                assert forall|t: int| 0 <= t < new_history.len() implies em.model(
                    (#[trigger] new_history[t]).0,
                ).can_encode(new_history[t].1 as nat) by {
                    if t < old_history.len() {
                        assert(new_history[t] == old_history[t]);
                    } else {
                        assert(new_history[t] == list@[t - old_history.len()]);
                    }
                }
            }
            assert(new_history.take(new_history.len() as int) =~= new_history);
        }
        self.history = Ghost(new_history);
        self.marks = Ghost(self.marks@.push(new_history.len()));
        proof {
            assert forall|i: int| 0 <= i < self.phases@.len() implies #[trigger] self.phases@[i]
                == phase_after(em, new_history.take(self.marks@[i] as int)) by {
                if i < old_phases.len() {
                    assert(new_history.take(self.marks@[i] as int) =~= old_history.take(
                        self.marks@[i] as int,
                    ));
                }
            }
        }
    }

    /// Writes value `value` of component `component`, and returns its
    /// estimated cost in bits.
    ///
    /// An outdegree starts a new node: the values buffered for the previous
    /// node, if any, are encoded first and its checkpoint is recorded, so that
    /// checkpoint `i` follows node `i`; the first outdegree records nothing.
    /// Fails with
    /// `ParameterError`, changing nothing, when the model cannot encode the
    /// value, or when it is not an outdegree and no node has started.
    pub fn write(&mut self, component: BVGraphComponent, value: u64) -> (r: Result<usize, AnsError>)
        requires
            old(self).wf(),
        ensures
            final(self).wf(),
            final(self).encoder.model == old(self).encoder.model,
            r is Ok <==> old(self).encoder.model.model(component).can_encode(value as nat) && (
            component == BVGraphComponent::Outdegree || old(self).curr_node is Some),
            r is Err ==> r == Err::<usize, AnsError>(AnsError::ParameterError) && *final(self)
                == *old(self),
            r matches Ok(cost) ==> cost == old(self).mock_writer.cost_spec(
                component.idx(),
                value as nat,
            ),
            r is Ok && component != BVGraphComponent::Outdegree ==> {
                &&& final(self).phases == old(self).phases
                &&& final(self).encoder == old(self).encoder
                &&& final(self).curr_node == old(self).curr_node
                &&& forall|c: int|
                    0 <= c < COMPONENTS ==> (#[trigger] final(self).data@[c])@ == if c
                        == component.idx() {
                        old(self).data@[c]@.push(value)
                    } else {
                        old(self).data@[c]@
                    }
            },
            r is Ok && component == BVGraphComponent::Outdegree ==> {
                &&& old(self).curr_node is Some ==> final(self).encoder.coder_view() == encode_writes(
                    old(self).encoder.model,
                    burst(buffers_view(old(self).data@)),
                    old(self).encoder.coder_view(),
                ) && final(self).phases@ == old(self).phases@.push(checkpoint(final(self).encoder))
                &&& old(self).curr_node is None ==> final(self).encoder == old(self).encoder
                    && final(self).phases == old(self).phases
                &&& final(self).curr_node == Some(final(self).phases@.len() as usize)
                &&& final(self).data@[0]@ == seq![value]
                &&& forall|c: int| 1 <= c < COMPONENTS ==> (#[trigger] final(self).data@[c])@.len() == 0
            },
    {
        if !self.encoder.model.can_encode(value, component) {
            return Err(AnsError::ParameterError);
        }
        let c = component.index();
        if c != 0 && self.curr_node.is_none() {
            return Err(AnsError::ParameterError);
        }
        let cost = self.mock_writer.cost(component, value);
        if c == 0 {
            if self.curr_node.is_some() {
                self.emit();
            }
            clear_buffers(&mut self.data);
            self.data[0].push(value);
            self.curr_node = Some(self.phases.len());
            proof {
                assert(buffers_encodable(self.encoder.model, self.data@)) by {
                    assert forall|cc: int, i: int|
                        0 <= cc < COMPONENTS && 0 <= i < self.data@[cc]@.len() implies self.encoder.model.tables@[cc].can_encode(
                        #[trigger] self.data@[cc]@[i] as nat,
                    ) by {
                        assert(cc == 0);
                    }
                }
            }
        } else {
            let ghost before = self.data@;
            self.data[c].push(value);
            proof {
                assert(buffers_encodable(self.encoder.model, self.data@)) by {
                    assert forall|cc: int, i: int|
                        0 <= cc < COMPONENTS && 0 <= i < self.data@[cc]@.len() implies self.encoder.model.tables@[cc].can_encode(
                        #[trigger] self.data@[cc]@[i] as nat,
                    ) by {
                        if cc != c || i < before[cc]@.len() {
                            assert(self.data@[cc]@[i] == before[cc]@[i]);
                        }
                    }
                }
            }
        }
        Ok(cost)
    }

    /// Encodes the values buffered for the last node, if one has started, and
    /// records its checkpoint; then records the trailing checkpoint and
    /// empties the buffers. `n` nodes and a flush leave `n + 1` checkpoints.
    pub fn flush(&mut self)
        requires
            old(self).wf(),
        ensures
            final(self).wf(),
            final(self).encoder.model == old(self).encoder.model,
            final(self).encoder.coder_view() == encode_writes(
                old(self).encoder.model,
                burst(buffers_view(old(self).data@)),
                old(self).encoder.coder_view(),
            ),
            old(self).curr_node is Some ==> final(self).phases@ == old(self).phases@.push(
                checkpoint(final(self).encoder),
            ).push(checkpoint(final(self).encoder)),
            old(self).curr_node is None ==> final(self).encoder.coder_view() == old(
                self,
            ).encoder.coder_view() && final(self).phases@ == old(self).phases@.push(
                checkpoint(final(self).encoder),
            ),
            final(self).curr_node is None,
            forall|c: int| 0 <= c < COMPONENTS ==> (#[trigger] final(self).data@[c])@.len() == 0,
    {
        proof {
            if self.curr_node is None {
                lemma_empty_burst(self.data@);
            }
        }
        if self.curr_node.is_some() {
            self.emit();
            clear_buffers(&mut self.data);
            self.curr_node = None;
            proof {
                lemma_empty_burst(self.data@);
            }
        }
        self.emit();
    }
}

/// Empty buffers encode nothing.
proof fn lemma_empty_burst(data: Seq<Vec<u64>>)
    requires
        data.len() == COMPONENTS,
        forall|c: int| 0 <= c < COMPONENTS ==> (#[trigger] data[c])@.len() == 0,
    ensures
        burst(buffers_view(data)) == Seq::<(BVGraphComponent, u64)>::empty(),
{
    let bv = buffers_view(data);
    assert(bv[0].len() == 0 && bv[1].len() == 0 && bv[2].len() == 0);
    assert(bv[3].len() == 0 && bv[4].len() == 0 && bv[5].len() == 0);
    assert(bv[6].len() == 0 && bv[7].len() == 0 && bv[8].len() == 0);
    assert(burst(bv) =~= Seq::<(BVGraphComponent, u64)>::empty());
}

/// Empties every buffer.
fn clear_buffers(data: &mut Vec<Vec<u64>>)
    requires
        old(data)@.len() == COMPONENTS,
    ensures
        final(data)@.len() == COMPONENTS,
        forall|c: int| 0 <= c < COMPONENTS ==> (#[trigger] final(data)@[c])@.len() == 0,
{
    let mut k: usize = 0;
    while k < COMPONENTS
        invariant
            data@.len() == COMPONENTS,
            k <= COMPONENTS,
            forall|j: int| 0 <= j < k ==> (#[trigger] data@[j])@.len() == 0,
        decreases COMPONENTS - k,
    {
        data[k].clear();
        k = k + 1;
    }
}

/// Nine empty buffers.
fn empty_buffers() -> (r: Vec<Vec<u64>>)
    ensures
        r@.len() == COMPONENTS,
        forall|c: int| 0 <= c < COMPONENTS ==> (#[trigger] r@[c])@.len() == 0,
{
    let mut data: Vec<Vec<u64>> = Vec::new();
    let mut c: usize = 0;
    while c < COMPONENTS
        invariant
            c <= COMPONENTS,
            data@.len() == c,
            forall|k: int| 0 <= k < c ==> (#[trigger] data@[k])@.len() == 0,
        decreases COMPONENTS - c,
    {
        data.push(Vec::new());
        c = c + 1;
    }
    data
}

/// Records the values written into a model builder, pricing them with an
/// estimator.
#[derive(Clone, Debug)]
pub struct BVGraphModelBuilder {
    /// The builder that the values go to.
    pub model_builder: ANSModel4EncoderBuilder,
    /// Prices the values written.
    pub estimator: CostEstimator,
}

impl BVGraphModelBuilder {
    /// A well-formed builder and estimator.
    pub open spec fn wf(&self) -> bool {
        self.model_builder.wf() && self.estimator.wf()
    }

    /// Creates a builder with no values, pricing with `estimator`.
    pub fn new(estimator: CostEstimator) -> (r: Self)
        requires
            estimator.wf(),
        ensures
            r.wf(),
            r.estimator == estimator,
            forall|c: int| 0 <= c < COMPONENTS ==> (#[trigger] r.model_builder.symbols@[c])@.len() == 0,
    {
        BVGraphModelBuilder { model_builder: ANSModel4EncoderBuilder::new(), estimator }
    }

    /// Records value `value` of component `component` and returns its
    /// estimated cost. Fails with `ParameterError`, recording nothing, when the
    /// value is above the largest raw symbol.
    pub fn write(&mut self, component: BVGraphComponent, value: u64) -> (r: Result<usize, AnsError>)
        requires
            old(self).wf(),
        ensures
            final(self).wf(),
            final(self).estimator == old(self).estimator,
            r is Ok <==> value <= MAX_RAW_SYMBOL,
            r is Err ==> r == Err::<usize, AnsError>(AnsError::ParameterError) && *final(self)
                == *old(self),
            r matches Ok(cost) ==> cost == old(self).estimator.cost_spec(component.idx(), value as nat)
                && forall|c: int|
                0 <= c < COMPONENTS ==> (#[trigger] final(self).model_builder.symbols@[c])@ == if c
                    == component.idx() {
                    old(self).model_builder.symbols@[c]@.push(value)
                } else {
                    old(self).model_builder.symbols@[c]@
                },
    {
        match self.model_builder.push_symbol(value, component) {
            Err(e) => Err(e),
            Ok(()) => Ok(self.estimator.cost(component, value)),
        }
    }

    /// Builds the model from the values written.
    pub fn build(self) -> (r: ANSModel4Encoder)
        requires
            self.wf(),
        ensures
            r.wf(),
            forall|c: int|
                0 <= c < COMPONENTS ==> crate::builder::covers(
                    #[trigger] r.tables@[c],
                    self.model_builder.symbols@[c]@,
                ),
            forall|c: int|
                0 <= c < COMPONENTS ==> crate::builder::models_symbols(
                    #[trigger] r.tables@[c],
                    self.model_builder.symbols@[c]@,
                ),
            forall|c: int, m2: crate::model4encoder::ANSComponentModel4Encoder|
                0 <= c < COMPONENTS && crate::builder::candidate(m2, self.model_builder.symbols@[c]@)
                    ==> crate::builder::symbols_cost(
                    #[trigger] r.tables@[c],
                    self.model_builder.symbols@[c]@,
                ) <= #[trigger] crate::builder::symbols_cost(m2, self.model_builder.symbols@[c]@),
    {
        self.model_builder.build()
    }
}

} // verus!
