//! The streaming encoder: one 64-bit state, a normalized stream of 32-bit
//! words and a folded stream of tail chunks.
use crate::bits::{lemma_pow2_facts, shl_u64, shr_u64};
use crate::codec::{encoded_state, lemma_step_round_trip, needs_renorm, valid_state};
use crate::component::BVGraphComponent;
use crate::error::AnsError;
use crate::folding::{fold_symbol, fold_tail, lemma_fold_symbol_bounds};
use crate::model4encoder::{ANSComponentModel4Encoder, ANSModel4Encoder};
use crate::{RawSymbol, State, INTERVAL_LOWER_BOUND};
use vstd::arithmetic::div_mod::*;
use vstd::arithmetic::mul::*;
use vstd::arithmetic::power2::*;
use vstd::prelude::*;

verus! {

/// A checkpoint of the coder: its state and how far each stream reaches.
#[derive(Clone, Copy, Debug, PartialEq, Eq, Structural)]
pub struct ANSCompressorPhase {
    /// The state.
    pub state: State,
    /// The length of the folded stream.
    pub folded: usize,
    /// The length of the normalized stream.
    pub normalized: usize,
}

/// What the encoder hands on: the models, its final state and both streams.
#[derive(Clone, Debug)]
pub struct Prelude {
    /// The model of each component, in wire order.
    pub tables: Vec<ANSComponentModel4Encoder>,
    /// The state after the last symbol.
    pub state: State,
    /// The normalized stream.
    pub normalized_bits: Vec<u32>,
    /// The folded stream.
    pub folded_bits: Vec<u8>,
}

/// Encoding raw symbol `s` with model `m` from coder view `v` (state,
/// normalized stream, folded stream).
pub open spec fn encode_step(m: ANSComponentModel4Encoder, s: nat, v: (nat, Seq<u32>, Seq<u8>)) -> (
    nat,
    Seq<u32>,
    Seq<u8>,
) {
    let e = m.table@[m.folded(s) as int];
    let l = m.frame_size as nat;
    let norm = if needs_renorm(v.0, e.freq as nat, l) {
        v.1.push((v.0 % pow2(32)) as u32)
    } else {
        v.1
    };
    (
        encoded_state(v.0, e.freq as nat, e.cumul_freq as nat, l),
        norm,
        v.2 + fold_tail(s, m.fidelity as nat, m.radix as nat),
    )
}

/// Encoding the write `w` (a component and a raw symbol) with model `em`.
pub open spec fn encode_write(
    em: ANSModel4Encoder,
    w: (BVGraphComponent, u64),
    v: (nat, Seq<u32>, Seq<u8>),
) -> (nat, Seq<u32>, Seq<u8>) {
    encode_step(em.model(w.0), w.1 as nat, v)
}

/// Encoding the writes `ws` in order, starting from view `v`.
pub open spec fn encode_writes(
    em: ANSModel4Encoder,
    ws: Seq<(BVGraphComponent, u64)>,
    v: (nat, Seq<u32>, Seq<u8>),
) -> (nat, Seq<u32>, Seq<u8>)
    decreases ws.len(),
{
    if ws.len() == 0 {
        v
    } else {
        encode_write(em, ws.last(), encode_writes(em, ws.drop_last(), v))
    }
}

/// Every write of `ws` can be encoded with model `em`.
pub open spec fn all_encodable(em: ANSModel4Encoder, ws: Seq<(BVGraphComponent, u64)>) -> bool {
    forall|i: int| 0 <= i < ws.len() ==> em.model((#[trigger] ws[i]).0).can_encode(ws[i].1 as nat)
}

/// Encoding keeps the state valid and only appends to the streams.
pub proof fn lemma_encode_step_valid(m: ANSComponentModel4Encoder, s: nat, v: (nat, Seq<u32>, Seq<u8>))
    requires
        m.wf(),
        m.can_encode(s),
        valid_state(v.0),
    ensures
        valid_state(encode_step(m, s, v).0),
        encode_step(m, s, v).1.take(v.1.len() as int) == v.1,
        encode_step(m, s, v).2.take(v.2.len() as int) == v.2,
        encode_step(m, s, v).1.len() >= v.1.len(),
        encode_step(m, s, v).2.len() >= v.2.len(),
{
    let x = m.folded(s) as int;
    assert(m.entry_ok(x));
    m.lemma_entry_in_frame(x);
    let e = m.table@[x];
    lemma_step_round_trip(v.0, e.freq as nat, e.cumul_freq as nat, m.frame_size as nat);
    let r = encode_step(m, s, v);
    assert(r.1.take(v.1.len() as int) =~= v.1);
    assert(r.2.take(v.2.len() as int) =~= v.2);
}

/// Encoding a sequence of writes keeps the state valid and only appends to
/// the streams.
pub proof fn lemma_encode_writes_valid(
    em: ANSModel4Encoder,
    ws: Seq<(BVGraphComponent, u64)>,
    v: (nat, Seq<u32>, Seq<u8>),
)
    requires
        em.wf(),
        all_encodable(em, ws),
        valid_state(v.0),
    ensures
        valid_state(encode_writes(em, ws, v).0),
        encode_writes(em, ws, v).1.len() >= v.1.len(),
        encode_writes(em, ws, v).2.len() >= v.2.len(),
        encode_writes(em, ws, v).1.take(v.1.len() as int) == v.1,
        encode_writes(em, ws, v).2.take(v.2.len() as int) == v.2,
    decreases ws.len(),
{
    if ws.len() > 0 {
        let init = ws.drop_last();
        assert(all_encodable(em, init)) by {
            assert forall|i: int| 0 <= i < init.len() implies em.model(
                (#[trigger] init[i]).0,
            ).can_encode(init[i].1 as nat) by {
                assert(init[i] == ws[i]);
            }
        }
        lemma_encode_writes_valid(em, init, v);
        let mid = encode_writes(em, init, v);
        let w = ws.last();
        assert(ws[ws.len() - 1] == w);
        let c = w.0.idx() as int;
        assert(em.tables@[c].wf());
        lemma_encode_step_valid(em.model(w.0), w.1 as nat, mid);
        let r = encode_writes(em, ws, v);
        assert(r.1.take(v.1.len() as int) =~= r.1.take(mid.1.len() as int).take(v.1.len() as int));
        assert(r.2.take(v.2.len() as int) =~= r.2.take(mid.2.len() as int).take(v.2.len() as int));
    }
}

/// Encodes raw symbol `symbol` with model `m` from state `state`, appending
/// to both streams; returns the new state.
pub fn encode_with_model(
    m: &ANSComponentModel4Encoder,
    state: State,
    symbol: RawSymbol,
    normalized_bits: &mut Vec<u32>,
    folded_bits: &mut Vec<u8>,
) -> (r: State)
    requires
        m.wf(),
        m.can_encode(symbol as nat),
        valid_state(state as nat),
    ensures
        valid_state(r as nat),
        (r as nat, final(normalized_bits)@, final(folded_bits)@) == encode_step(
            *m,
            symbol as nat,
            (state as nat, old(normalized_bits)@, old(folded_bits)@),
        ),
{
    let ghost v = (state as nat, normalized_bits@, folded_bits@);
    let x = fold_symbol(symbol, m.fidelity, m.radix, folded_bits);
    proof {
        lemma_fold_symbol_bounds(symbol as nat, m.fidelity as nat, m.radix as nat);
    }
    let e = m.table[x as usize];
    let l = m.frame_size;
    proof {
        assert(m.entry_ok(x as int));
        m.lemma_entry_in_frame(x as int);
        lemma_step_round_trip(state as nat, e.freq as nat, e.cumul_freq as nat, l as nat);
        lemma_pow2_facts();
    }
    let mut s = state;
    if (s as u128) >= e.upperbound {
        normalized_bits.push((s % 0x1_0000_0000) as u32);
        s = shr_u64(s, 32);
    }
    let f = e.freq as u64;
    let block = s / f;
    let rest = s % f;
    proof {
        let s1 = s as int;
        lemma_fundamental_div_mod(s1, f as int);
        lemma_mod_pos_bound(s1, f as int);
        lemma_pow2_pos(l as nat);
        let enc = encoded_state(v.0, e.freq as nat, e.cumul_freq as nat, l as nat);
        assert(enc == block * pow2(l as nat) + e.cumul_freq + rest);
        assert(block * pow2(l as nat) <= enc) by (nonlinear_arith)
            requires
                enc == block * pow2(l as nat) + e.cumul_freq + rest,
                rest >= 0,
        ;
        lemma_pow2_facts();
    }
    let shifted = shl_u64(block, l as u64);
    shifted + e.cumul_freq as u64 + rest
}

/// The encoder of every component's symbols.
#[derive(Clone, Debug)]
pub struct ANSEncoder {
    /// The model, fixed at construction.
    pub model: ANSModel4Encoder,
    /// The state, within `[2^32, 2^64)`.
    pub state: State,
    /// The normalized stream.
    pub normalized_bits: Vec<u32>,
    /// The folded stream.
    pub folded_bits: Vec<u8>,
}

impl ANSEncoder {
    /// A well-formed model and a valid state.
    pub open spec fn wf(&self) -> bool {
        self.model.wf() && valid_state(self.state as nat)
    }

    /// The state and the two streams.
    pub open spec fn coder_view(&self) -> (nat, Seq<u32>, Seq<u8>) {
        (self.state as nat, self.normalized_bits@, self.folded_bits@)
    }

    /// Creates an encoder with the given model, the lowest state and empty streams.
    pub fn new(model: ANSModel4Encoder) -> (r: Self)
        requires
            model.wf(),
        ensures
            r.wf(),
            r.model == model,
            r.coder_view() == (INTERVAL_LOWER_BOUND as nat, Seq::<u32>::empty(), Seq::<u8>::empty()),
    {
        proof {
            lemma_pow2_facts();
        }
        ANSEncoder {
            model,
            state: INTERVAL_LOWER_BOUND,
            normalized_bits: Vec::new(),
            folded_bits: Vec::new(),
        }
    }

    /// Encodes raw symbol `symbol` of component `component`.
    ///
    /// Fails with `ParameterError`, changing nothing, when the model cannot
    /// encode the symbol (it is above the largest raw symbol, or its folded
    /// symbol has no frequency).
    pub fn encode(&mut self, symbol: RawSymbol, component: BVGraphComponent) -> (r: Result<
        (),
        AnsError,
    >)
        requires
            old(self).wf(),
        ensures
            final(self).wf(),
            final(self).model == old(self).model,
            r is Ok <==> old(self).model.model(component).can_encode(symbol as nat),
            r is Ok ==> final(self).coder_view() == encode_step(
                old(self).model.model(component),
                symbol as nat,
                old(self).coder_view(),
            ),
            r is Err ==> r == Err::<(), AnsError>(AnsError::ParameterError) && *final(self) == *old(
                self,
            ),
    {
        let c = component.index();
        assert(self.model.tables@[c as int].wf());
        if !self.model.can_encode(symbol, component) {
            return Err(AnsError::ParameterError);
        }
        let state = encode_with_model(
            &self.model.tables[c],
            self.state,
            symbol,
            &mut self.normalized_bits,
            &mut self.folded_bits,
        );
        self.state = state;
        Ok(())
    }

    /// Returns the current checkpoint: the state and the lengths of both streams.
    pub fn get_current_compressor_phase(&self) -> (r: ANSCompressorPhase)
        ensures
            r.state == self.state,
            r.folded == self.folded_bits@.len(),
            r.normalized == self.normalized_bits@.len(),
    {
        ANSCompressorPhase {
            state: self.state,
            folded: self.folded_bits.len(),
            normalized: self.normalized_bits.len(),
        }
    }

    /// Consumes the encoder and returns what a decoder needs.
    pub fn into_prelude(self) -> (r: Prelude)
        ensures
            r.tables == self.model.tables,
            r.state == self.state,
            r.normalized_bits@ == self.normalized_bits@,
            r.folded_bits@ == self.folded_bits@,
    {
        Prelude {
            tables: self.model.tables,
            state: self.state,
            normalized_bits: self.normalized_bits,
            folded_bits: self.folded_bits,
        }
    }
}

} // verus!
