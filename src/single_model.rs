//! A coder of one sequence with one model and four interleaved states, which
//! share the two streams.
use crate::builder::{all_raw, best_frame, covers, models_symbols};
use crate::codec::valid_state;
use crate::encoder::{encode_step, encode_with_model};
use crate::error::AnsError;
use crate::folding::{threshold, valid_params, MAX_FIDELITY, MAX_RADIX};
use crate::model4encoder::{ANSComponentModel4Encoder, EncoderModelEntry};
use crate::{RawSymbol, State, FASTER_RADIX, INTERVAL_LOWER_BOUND, MAX_RAW_SYMBOL};
use vstd::prelude::*;

verus! {

/// The number of interleaved states.
pub const LANES: usize = 4;

/// The lane and the input position of encoding step `k` of a sequence of
/// length `n`: the last `n % 4` symbols first, on lane zero, last first; then
/// each group of four, last group first, its fourth symbol on lane zero down to
/// its first on lane three.
pub open spec fn lane_step(n: nat, k: nat) -> (nat, int) {
    let r = n % 4;
    let q = n / 4;
    if k < r {
        (0, n - 1 - k)
    } else {
        let t = (k - r) as nat;
        let group = q - 1 - t / 4;
        let pos = t % 4;
        (pos, 4 * group + 3 - pos)
    }
}

/// The lane states and the streams after the first `k` encoding steps.
pub open spec fn lanes_after(m: ANSComponentModel4Encoder, input: Seq<RawSymbol>, k: nat) -> (
    Seq<nat>,
    Seq<u32>,
    Seq<u8>,
)
    decreases k,
{
    if k == 0 {
        (
            seq![
                INTERVAL_LOWER_BOUND as nat,
                INTERVAL_LOWER_BOUND as nat,
                INTERVAL_LOWER_BOUND as nat,
                INTERVAL_LOWER_BOUND as nat,
            ],
            Seq::empty(),
            Seq::empty(),
        )
    } else {
        let prev = lanes_after(m, input, (k - 1) as nat);
        let (lane, idx) = lane_step(input.len(), (k - 1) as nat);
        let v = encode_step(m, input[idx] as nat, (prev.0[lane as int], prev.1, prev.2));
        (prev.0.update(lane as int, v.0), v.1, v.2)
    }
}

/// Every encoding step reads a position of the input.
pub proof fn lemma_lane_step_bounds(n: nat, k: nat)
    requires
        k < n,
    ensures
        lane_step(n, k).0 < 4,
        0 <= lane_step(n, k).1 < n,
{
    let r = n % 4;
    let q = n / 4;
    assert(n == 4 * q + r);
    if k >= r {
        let t = (k - r) as nat;
        assert(t < 4 * q);
        assert(t / 4 < q);
        assert(t % 4 < 4);
        assert(4 * (q - 1 - t / 4) + 3 - t % 4 >= 0);
        assert(4 * (q - 1 - t / 4) + 3 - t % 4 < 4 * q);
    }
}

/// What the single-model coder hands on.
#[derive(Clone, Debug)]
pub struct SinglePrelude {
    /// The model's entries.
    pub table: Vec<EncoderModelEntry>,
    /// The length of the encoded sequence.
    pub sequence_length: u64,
    /// The normalized stream.
    pub normalized_bits: Vec<u32>,
    /// The folded stream.
    pub folded_bits: Vec<u8>,
    /// The log2 of the model's frame size.
    pub log2_frame_size: usize,
    /// The final state of each lane.
    pub states: Vec<State>,
}

/// Encodes a sequence with one model built from it and four interleaved states.
#[derive(Clone, Debug)]
pub struct FoldedStreamANSCoder<'a> {
    /// The model, built from the input.
    pub model: ANSComponentModel4Encoder,
    /// The state of each lane.
    pub states: Vec<State>,
    /// The normalized stream.
    pub normalized_bits: Vec<u32>,
    /// The folded stream.
    pub folded_bits: Vec<u8>,
    /// The sequence to encode.
    pub input_sequence: &'a Vec<RawSymbol>,
    /// The first symbol that is folded.
    pub folding_threshold: RawSymbol,
}

impl<'a> FoldedStreamANSCoder<'a> {
    /// A well-formed model that can encode the whole input, and four valid states.
    pub open spec fn wf(&self) -> bool {
        &&& self.model.wf()
        &&& covers(self.model, self.input_sequence@)
        &&& self.folding_threshold == self.model.folding_threshold
        &&& self.states@.len() == LANES
        &&& forall|i: int| 0 <= i < LANES ==> valid_state(#[trigger] self.states@[i] as nat)
    }

    /// Creates a coder of `input` with the given fidelity and radix, building
    /// its model from the input. Fails with `ParameterError` when a parameter
    /// is out of range or a symbol is above the largest raw symbol.
    pub fn with_parameters(input: &'a Vec<RawSymbol>, fidelity: usize, radix: usize) -> (r: Result<
        Self,
        AnsError,
    >)
        ensures
            r is Ok <==> valid_params(fidelity as nat, radix as nat) && all_raw(input@),
            r is Err ==> r == Err::<Self, AnsError>(AnsError::ParameterError),
            r matches Ok(c) ==> {
                &&& c.wf()
                &&& c.input_sequence == input
                &&& c.model.fidelity == fidelity
                &&& c.model.radix == radix
                &&& models_symbols(c.model, input@)
                &&& c.folding_threshold == threshold(fidelity as nat, radix as nat)
                &&& c.normalized_bits@.len() == 0
                &&& c.folded_bits@.len() == 0
            },
    {
        if fidelity < 1 || fidelity > MAX_FIDELITY || radix < 1 || radix > MAX_RADIX {
            return Err(AnsError::ParameterError);
        }
        let mut i: usize = 0;
        while i < input.len()
            invariant
                i <= input@.len(),
                forall|j: int| 0 <= j < i ==> #[trigger] input@[j] <= MAX_RAW_SYMBOL,
            decreases input@.len() - i,
        {
            if input[i] > MAX_RAW_SYMBOL {
                return Err(AnsError::ParameterError);
            }
            i = i + 1;
        }
        let (model, _) = best_frame(input, fidelity, radix);
        let threshold = model.folding_threshold;
        proof {
            crate::bits::lemma_pow2_facts();
        }
        let states = vec![INTERVAL_LOWER_BOUND, INTERVAL_LOWER_BOUND, INTERVAL_LOWER_BOUND, INTERVAL_LOWER_BOUND];
        Ok(
            FoldedStreamANSCoder {
                model,
                states,
                normalized_bits: Vec::new(),
                folded_bits: Vec::new(),
                input_sequence: input,
                folding_threshold: threshold,
            },
        )
    }

    /// Creates a coder of `input` with the given fidelity and the default radix.
    pub fn new(input: &'a Vec<RawSymbol>, fidelity: usize) -> (r: Result<Self, AnsError>)
        ensures
            r is Ok <==> valid_params(fidelity as nat, FASTER_RADIX as nat) && all_raw(input@),
            r is Err ==> r == Err::<Self, AnsError>(AnsError::ParameterError),
            r matches Ok(c) ==> {
                &&& c.wf()
                &&& c.input_sequence == input
                &&& c.model.fidelity == fidelity
                &&& c.model.radix == FASTER_RADIX
                &&& models_symbols(c.model, input@)
                &&& c.folding_threshold == threshold(fidelity as nat, FASTER_RADIX as nat)
                &&& c.normalized_bits@.len() == 0
                &&& c.folded_bits@.len() == 0
            },
    {
        Self::with_parameters(input, fidelity, FASTER_RADIX)
    }

    /// Encodes raw symbol `sym` on a lane in state `state`, appending to both
    /// streams; returns the lane's new state.
    pub fn encode_symbol(
        &self,
        sym: RawSymbol,
        state: State,
        norm: &mut Vec<u32>,
        folded_bits: &mut Vec<u8>,
    ) -> (r: State)
        requires
            self.model.wf(),
            self.model.can_encode(sym as nat),
            valid_state(state as nat),
        ensures
            valid_state(r as nat),
            (r as nat, final(norm)@, final(folded_bits)@) == encode_step(
                self.model,
                sym as nat,
                (state as nat, old(norm)@, old(folded_bits)@),
            ),
    {
        encode_with_model(&self.model, state, sym, norm, folded_bits)
    }

    /// Encodes the whole input, from fresh states and empty streams, in the
    /// order of `lane_step`, so that decoding reads it forwards.
    pub fn encode_all(&mut self)
        requires
            old(self).wf(),
        ensures
            final(self).wf(),
            final(self).model == old(self).model,
            final(self).input_sequence == old(self).input_sequence,
            (
                Seq::new(4, |i: int| final(self).states@[i] as nat),
                final(self).normalized_bits@,
                final(self).folded_bits@,
            ) == lanes_after(
                old(self).model,
                old(self).input_sequence@,
                old(self).input_sequence@.len(),
            ),
    {
        proof {
            crate::bits::lemma_pow2_facts();
        }
        let n = self.input_sequence.len();
        let mut states: Vec<State> = vec![INTERVAL_LOWER_BOUND, INTERVAL_LOWER_BOUND, INTERVAL_LOWER_BOUND, INTERVAL_LOWER_BOUND];
        let mut norm: Vec<u32> = Vec::new();
        let mut folded: Vec<u8> = Vec::new();
        let r = n % 4;
        let q = n / 4;
        let mut k: usize = 0;
        assert(Seq::new(4, |i: int| states@[i] as nat) =~= lanes_after(
            self.model,
            self.input_sequence@,
            0,
        ).0);
        while k < n
            invariant
                self.wf(),
                n == self.input_sequence@.len(),
                r == n % 4,
                q == n / 4,
                k <= n,
                states@.len() == 4,
                forall|i: int| 0 <= i < 4 ==> valid_state(#[trigger] states@[i] as nat),
                (Seq::new(4, |i: int| states@[i] as nat), norm@, folded@) == lanes_after(
                    self.model,
                    self.input_sequence@,
                    k as nat,
                ),
            decreases n - k,
        {
            proof {
                lemma_lane_step_bounds(n as nat, k as nat);
            }
            let (lane, idx) = if k < r {
                (0usize, n - 1 - k)
            } else {
                let t = k - r;
                let group = q - 1 - t / 4;
                let pos = t % 4;
                (pos, 4 * group + 3 - pos)
            };
            assert(lane_step(n as nat, k as nat) == (lane as nat, idx as int));
            let sym = self.input_sequence[idx];
            assert(self.model.can_encode(self.input_sequence@[idx as int] as nat));
            let ghost prev_states = Seq::new(4, |i: int| states@[i] as nat);
            let s = self.encode_symbol(sym, states[lane], &mut norm, &mut folded);
            states.set(lane, s);
            assert(Seq::new(4, |i: int| states@[i] as nat) =~= prev_states.update(lane as int, s as nat));
            k = k + 1;
        }
        self.states = states;
        self.normalized_bits = norm;
        self.folded_bits = folded;
    }

    /// Returns what a decoder needs: the model's entries, the length of the
    /// input, both streams, the frame size and the lane states.
    pub fn serialize(&self) -> (r: SinglePrelude)
        ensures
            r.table@ == self.model.table@,
            r.sequence_length == self.input_sequence@.len(),
            r.normalized_bits@ == self.normalized_bits@,
            r.folded_bits@ == self.folded_bits@,
            r.log2_frame_size == self.model.frame_size,
            r.states@ == self.states@,
    {
        SinglePrelude {
            table: copy_vec(&self.model.table),
            sequence_length: self.input_sequence.len() as u64,
            normalized_bits: copy_vec(&self.normalized_bits),
            folded_bits: copy_vec(&self.folded_bits),
            log2_frame_size: self.model.frame_size,
            states: copy_vec(&self.states),
        }
    }
}

/// Returns a copy of `v`.
fn copy_vec<T: Copy>(v: &Vec<T>) -> (r: Vec<T>)
    ensures
        r@ == v@,
{
    let mut r: Vec<T> = Vec::new();
    let mut i: usize = 0;
    while i < v.len()
        invariant
            i <= v@.len(),
            r@ == v@.take(i as int),
        decreases v@.len() - i,
    {
        r.push(v[i]);
        assert(v@.take(i + 1) =~= v@.take(i as int).push(v@[i as int]));
        i = i + 1;
    }
    assert(v@.take(v@.len() as int) =~= v@);
    r
}

} // verus!
