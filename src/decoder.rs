//! The decoder: it reads symbols back, last encoded first, from a state and
//! the prefixes of both streams that a cursor delimits.
use crate::bits::{lemma_pow2_facts, pow2_u64, shr_u64};
use crate::codec::{decoded_state, lemma_decode_bounds, lemma_step_round_trip, needs_renorm, slot_of, valid_state};
use crate::component::BVGraphComponent;
use crate::encoder::{all_encodable, encode_write, encode_writes, ANSCompressorPhase, Prelude};
use crate::error::AnsError;
use crate::folding::{lemma_fold_basics, lemma_fold_symbol_bounds, lemma_unfold_fold_stream, unfold_quasi, unfold_symbol};
use crate::model4decoder::{slot_ok, ANSModel4Decoder};
use crate::model4encoder::ANSModel4Encoder;
use crate::{RawSymbol, State};
use vstd::arithmetic::div_mod::*;
use vstd::arithmetic::mul::*;
use vstd::arithmetic::power2::*;
use vstd::prelude::*;

verus! {

/// Decoding one symbol of component `c` from coder view `v`: the raw symbol
/// and the view before it was encoded, or `None` when a stream is too short
/// or what is read is not a raw symbol.
pub open spec fn decode_step(dm: ANSModel4Decoder, c: nat, v: (nat, Seq<u32>, Seq<u8>)) -> Option<
    (nat, (nat, Seq<u32>, Seq<u8>)),
> {
    let l = dm.frame_sizes@[c as int] as nat;
    let slot = slot_of(v.0, l);
    let e = dm.tables@[c as int]@[slot as int];
    let d = decoded_state(v.0, e.freq as nat, e.cumul_freq as nat, l);
    if d < pow2(32) && v.1.len() == 0 {
        None
    } else {
        let st = if d < pow2(32) {
            (d * pow2(32) + v.1.last()) as nat
        } else {
            d as nat
        };
        let norm = if d < pow2(32) {
            v.1.drop_last()
        } else {
            v.1
        };
        match unfold_quasi(e.quasi_folded as nat, dm.radixes@[c as int] as nat, v.2) {
            Some((sym, rest)) => Some((sym, (st, norm, rest))),
            None => None,
        }
    }
}

/// Decoding the components `cs` in order from view `v`: the symbols read and
/// the view reached, or `None` when a step fails.
pub open spec fn decode_steps(dm: ANSModel4Decoder, cs: Seq<BVGraphComponent>, v: (
    nat,
    Seq<u32>,
    Seq<u8>,
)) -> Option<(Seq<nat>, (nat, Seq<u32>, Seq<u8>))>
    decreases cs.len(),
{
    if cs.len() == 0 {
        Some((Seq::empty(), v))
    } else {
        match decode_step(dm, cs[0].idx(), v) {
            None => None,
            Some((s, v2)) => match decode_steps(dm, cs.drop_first(), v2) {
                None => None,
                Some((rest, v3)) => Some((seq![s] + rest, v3)),
            },
        }
    }
}

/// The components of the writes `ws`, last first.
pub open spec fn rev_components(ws: Seq<(BVGraphComponent, u64)>) -> Seq<BVGraphComponent>
    decreases ws.len(),
{
    if ws.len() == 0 {
        Seq::empty()
    } else {
        seq![ws.last().0] + rev_components(ws.drop_last())
    }
}

/// The symbols of the writes `ws`, last first.
pub open spec fn rev_symbols(ws: Seq<(BVGraphComponent, u64)>) -> Seq<nat>
    decreases ws.len(),
{
    if ws.len() == 0 {
        Seq::empty()
    } else {
        seq![ws.last().1 as nat] + rev_symbols(ws.drop_last())
    }
}

/// Decoding with a model built from the encoder's undoes one encoding step.
pub proof fn lemma_decode_encode_step(
    em: ANSModel4Encoder,
    dm: ANSModel4Decoder,
    c: BVGraphComponent,
    s: nat,
    v: (nat, Seq<u32>, Seq<u8>),
)
    requires
        em.wf(),
        dm.built_from(em.tables@),
        valid_state(v.0),
        em.model(c).can_encode(s),
    ensures
        decode_step(dm, c.idx(), encode_write(em, (c, s as u64), v)) == Some((s, v)),
{
    let ci = c.idx() as int;
    let m = em.tables@[ci];
    assert(m.wf());
    let x = m.folded(s) as int;
    assert(m.entry_ok(x));
    m.lemma_entry_in_frame(x);
    let e = m.table@[x];
    let l = m.frame_size as nat;
    assert(s as u64 as nat == s);
    lemma_step_round_trip(v.0, e.freq as nat, e.cumul_freq as nat, l);
    let w = encode_write(em, (c, s as u64), v);
    assert(dm.frame_sizes@[ci] == m.frame_size);
    let slot = slot_of(w.0, l);
    assert(0 <= slot < pow2(l)) by {
        lemma_pow2_pos(l);
        lemma_mod_pos_bound(w.0 as int, pow2(l) as int);
    }
    let de = dm.tables@[ci]@[slot as int];
    assert(slot_ok(m, de, slot as int));
    m.lemma_slot_unique(de.symbol as int, x, slot as int);
    lemma_pow2_facts();
    if needs_renorm(v.0, e.freq as nat, l) {
        assert(w.1.last() == (v.0 % pow2(32)) as u32);
        assert(w.1.drop_last() =~= v.1);
        lemma_mod_pos_bound(v.0 as int, pow2(32) as int);
    }
    let fid = m.fidelity as nat;
    let rad = m.radix as nat;
    lemma_fold_symbol_bounds(s, fid, rad);
    lemma_fold_basics(s, fid, rad);
    lemma_unfold_fold_stream(s, fid, rad, v.2);
    let q = e.quasi_folded as nat;
    let top = crate::folding::fold_top(s, fid, rad);
    let k = crate::folding::fold_chunks(s, fid, rad);
    assert(q == top * pow2(8) + k * rad);
    assert(k * rad < pow2(8));
    lemma_fundamental_div_mod_converse(q as int, pow2(8) as int, top as int, (k * rad) as int);
    assert((k * rad) / rad == k) by {
        lemma_div_by_multiple(k as int, rad as int);
    }
    assert(dm.radixes@[ci] == m.radix);
    assert(k <= (v.2 + crate::folding::fold_tail(s, fid, rad)).len());
}

/// Decoding, in mirrored order, the symbols that a sequence of writes encoded
/// gives them back, last first, and returns the coder to the view it started
/// from. This holds for any sequence of writes that the model can encode, from
/// any valid state.
pub proof fn lemma_round_trip(
    em: ANSModel4Encoder,
    dm: ANSModel4Decoder,
    ws: Seq<(BVGraphComponent, u64)>,
    v: (nat, Seq<u32>, Seq<u8>),
)
    requires
        em.wf(),
        dm.built_from(em.tables@),
        valid_state(v.0),
        all_encodable(em, ws),
    ensures
        decode_steps(dm, rev_components(ws), encode_writes(em, ws, v)) == Some(
            (rev_symbols(ws), v),
        ),
    decreases ws.len(),
{
    if ws.len() > 0 {
        let init = ws.drop_last();
        let w = ws.last();
        assert(ws[ws.len() - 1] == w);
        assert(all_encodable(em, init)) by {
            assert forall|i: int| 0 <= i < init.len() implies em.model(
                (#[trigger] init[i]).0,
            ).can_encode(init[i].1 as nat) by {
                assert(init[i] == ws[i]);
            }
        }
        crate::encoder::lemma_encode_writes_valid(em, init, v);
        let mid = encode_writes(em, init, v);
        lemma_decode_encode_step(em, dm, w.0, w.1 as nat, mid);
        assert((w.0, w.1 as nat as u64) == w);
        lemma_round_trip(em, dm, init, v);
        let cs = rev_components(ws);
        assert(cs[0] == w.0);
        assert(cs.drop_first() =~= rev_components(init));
    }
}

/// Decoding from the end of a longer encoding reaches, after the later writes,
/// exactly the view that a checkpoint taken after the earlier writes recorded;
/// from there, decoding goes on as it would from that checkpoint.
pub proof fn lemma_phase_equivalence(
    em: ANSModel4Encoder,
    dm: ANSModel4Decoder,
    before: Seq<(BVGraphComponent, u64)>,
    after: Seq<(BVGraphComponent, u64)>,
    v: (nat, Seq<u32>, Seq<u8>),
)
    requires
        em.wf(),
        dm.built_from(em.tables@),
        valid_state(v.0),
        all_encodable(em, before + after),
    ensures
        ({
            let mid = encode_writes(em, before, v);
            let end = encode_writes(em, before + after, v);
            let phase_view = (mid.0, end.1.take(mid.1.len() as int), end.2.take(mid.2.len() as int));
            &&& phase_view == mid
            &&& decode_steps(dm, rev_components(after), end) == Some((rev_symbols(after), mid))
            &&& decode_steps(dm, rev_components(before), phase_view) == Some(
                (rev_symbols(before), v),
            )
        }),
{
    let all = before + after;
    assert(all_encodable(em, before)) by {
        assert forall|i: int| 0 <= i < before.len() implies em.model(
            (#[trigger] before[i]).0,
        ).can_encode(before[i].1 as nat) by {
            assert(before[i] == all[i]);
        }
    }
    assert(all_encodable(em, after)) by {
        assert forall|i: int| 0 <= i < after.len() implies em.model(
            (#[trigger] after[i]).0,
        ).can_encode(after[i].1 as nat) by {
            assert(after[i] == all[before.len() + i]);
        }
    }
    lemma_encode_writes_append(em, before, after, v);
    let mid = encode_writes(em, before, v);
    crate::encoder::lemma_encode_writes_valid(em, before, v);
    crate::encoder::lemma_encode_writes_valid(em, after, mid);
    lemma_round_trip(em, dm, after, mid);
    lemma_round_trip(em, dm, before, v);
}

/// Encoding two sequences one after the other is encoding their concatenation.
pub proof fn lemma_encode_writes_append(
    em: ANSModel4Encoder,
    a: Seq<(BVGraphComponent, u64)>,
    b: Seq<(BVGraphComponent, u64)>,
    v: (nat, Seq<u32>, Seq<u8>),
)
    ensures
        encode_writes(em, a + b, v) == encode_writes(em, b, encode_writes(em, a, v)),
    decreases b.len(),
{
    if b.len() == 0 {
        assert(a + b =~= a);
    } else {
        lemma_encode_writes_append(em, a, b.drop_last(), v);
        assert((a + b).drop_last() =~= a + b.drop_last());
        assert((a + b).last() == b.last());
    }
}

/// The decoder of every component's symbols.
#[derive(Clone, Debug)]
pub struct ANSDecoder<'a> {
    /// The model.
    pub model: &'a ANSModel4Decoder,
    /// The normalized stream.
    pub normalized_bits: &'a Vec<u32>,
    /// The folded stream.
    pub folded_bits: &'a Vec<u8>,
    /// The state, within `[2^32, 2^64)`.
    pub state: State,
    /// The folded stream is read from before this position.
    pub last_unfolded_pos: usize,
    /// The normalized stream is read from before this position.
    pub last_normalized_pos: usize,
}

impl<'a> ANSDecoder<'a> {
    /// A well-formed model, a valid state and cursors within the streams.
    pub open spec fn wf(&self) -> bool {
        &&& self.model.wf()
        &&& valid_state(self.state as nat)
        &&& self.last_unfolded_pos <= self.folded_bits@.len()
        &&& self.last_normalized_pos <= self.normalized_bits@.len()
    }

    /// The state and the parts of both streams that are still to be read.
    pub open spec fn coder_view(&self) -> (nat, Seq<u32>, Seq<u8>) {
        (
            self.state as nat,
            self.normalized_bits@.take(self.last_normalized_pos as int),
            self.folded_bits@.take(self.last_unfolded_pos as int),
        )
    }

    /// Whether `phase` is a valid checkpoint for these streams.
    pub open spec fn phase_fits(&self, phase: ANSCompressorPhase) -> bool {
        &&& valid_state(phase.state as nat)
        &&& phase.folded <= self.folded_bits@.len()
        &&& phase.normalized <= self.normalized_bits@.len()
    }

    /// Creates a decoder over the given streams, seeded with `state` and
    /// reading from their ends.
    pub fn with_parameters(
        model: &'a ANSModel4Decoder,
        normalized_bits: &'a Vec<u32>,
        folded_bits: &'a Vec<u8>,
        state: State,
    ) -> (r: Self)
        requires
            model.wf(),
            valid_state(state as nat),
        ensures
            r.wf(),
            r.model == model,
            r.normalized_bits == normalized_bits,
            r.folded_bits == folded_bits,
            r.coder_view() == (state as nat, normalized_bits@, folded_bits@),
    {
        assert(normalized_bits@.take(normalized_bits@.len() as int) =~= normalized_bits@);
        assert(folded_bits@.take(folded_bits@.len() as int) =~= folded_bits@);
        ANSDecoder {
            model,
            normalized_bits,
            folded_bits,
            state,
            last_unfolded_pos: folded_bits.len(),
            last_normalized_pos: normalized_bits.len(),
        }
    }

    /// Creates a decoder that reads the prelude from its end.
    pub fn new(prelude: &'a Prelude, model: &'a ANSModel4Decoder) -> (r: Self)
        requires
            model.built_from(prelude.tables@),
            valid_state(prelude.state as nat),
        ensures
            r.wf(),
            r.model == model,
            r.normalized_bits == &prelude.normalized_bits,
            r.folded_bits == &prelude.folded_bits,
            r.coder_view() == (
                prelude.state as nat,
                prelude.normalized_bits@,
                prelude.folded_bits@,
            ),
    {
        Self::with_parameters(model, &prelude.normalized_bits, &prelude.folded_bits, prelude.state)
    }

    /// Decodes the next symbol of component `component`.
    ///
    /// Fails with `CorruptedStream`, changing nothing, when a stream ends
    /// early or what is read is not a raw symbol.
    pub fn decode(&mut self, component: BVGraphComponent) -> (r: Result<RawSymbol, AnsError>)
        requires
            old(self).wf(),
        ensures
            final(self).wf(),
            final(self).model == old(self).model,
            final(self).normalized_bits == old(self).normalized_bits,
            final(self).folded_bits == old(self).folded_bits,
            match decode_step(*old(self).model, component.idx(), old(self).coder_view()) {
                Some((s, v)) => r == Ok::<RawSymbol, AnsError>(s as u64) && final(self).coder_view()
                    == v,
                None => r == Err::<RawSymbol, AnsError>(AnsError::CorruptedStream) && *final(self)
                    == *old(self),
            },
    {
        let c = component.index();
        let l = self.model.frame_sizes[c];
        let radix = self.model.radixes[c];
        let ghost v = self.coder_view();
        proof {
            assert(1 <= self.model.frame_sizes@[c as int] <= 28);
            lemma_pow2_facts();
            lemma_pow2_strictly_increases(l as nat, 32);
            lemma_pow2_pos(l as nat);
        }
        let frame = pow2_u64(l as u64);
        let slot = self.state % frame;
        let e = self.model.tables[c][slot as usize];
        let q = shr_u64(self.state, l as u64);
        proof {
            lemma_decode_bounds(self.state as nat, e.freq as nat, e.cumul_freq as nat, l as nat, 0);
            lemma_fundamental_div_mod(self.state as int, frame as int);
            assert(q * e.freq + slot - e.cumul_freq == decoded_state(
                self.state as nat,
                e.freq as nat,
                e.cumul_freq as nat,
                l as nat,
            ));
            assert(e.cumul_freq <= slot);
            assert(q * e.freq <= q * e.freq + slot - e.cumul_freq);
        }
        let d = q * (e.freq as u64) + (slot - e.cumul_freq as u64);
        let mut new_state = d;
        let mut new_npos = self.last_normalized_pos;
        if d < 0x1_0000_0000 {
            if self.last_normalized_pos == 0 {
                return Err(AnsError::CorruptedStream);
            }
            let word = self.normalized_bits[self.last_normalized_pos - 1];
            proof {
                lemma_decode_bounds(
                    self.state as nat,
                    e.freq as nat,
                    e.cumul_freq as nat,
                    l as nat,
                    word as nat,
                );
                assert(v.1.last() == word);
                assert(v.1.drop_last() =~= self.normalized_bits@.take(
                    self.last_normalized_pos - 1,
                ));
            }
            new_state = d * 0x1_0000_0000 + word as u64;
            new_npos = self.last_normalized_pos - 1;
        }
        match unfold_symbol(e.quasi_folded, radix, self.folded_bits, self.last_unfolded_pos) {
            None => Err(AnsError::CorruptedStream),
            Some((sym, fpos)) => {
                self.state = new_state;
                self.last_normalized_pos = new_npos;
                self.last_unfolded_pos = fpos;
                Ok(sym)
            },
        }
    }

    /// Moves the decoder to checkpoint `phase`.
    ///
    /// Fails with `ParameterError`, changing nothing, when the phase does not
    /// fit these streams.
    pub fn set_compressor_at_phase(&mut self, phase: &ANSCompressorPhase) -> (r: Result<
        (),
        AnsError,
    >)
        requires
            old(self).wf(),
        ensures
            final(self).wf(),
            final(self).model == old(self).model,
            final(self).normalized_bits == old(self).normalized_bits,
            final(self).folded_bits == old(self).folded_bits,
            r is Ok <==> old(self).phase_fits(*phase),
            r is Ok ==> final(self).coder_view() == (
                phase.state as nat,
                old(self).normalized_bits@.take(phase.normalized as int),
                old(self).folded_bits@.take(phase.folded as int),
            ),
            r is Err ==> r == Err::<(), AnsError>(AnsError::ParameterError) && *final(self)
                == *old(self),
    {
        proof {
            lemma_pow2_facts();
        }
        if phase.state < 0x1_0000_0000 || phase.folded > self.folded_bits.len() || phase.normalized
            > self.normalized_bits.len() {
            return Err(AnsError::ParameterError);
        }
        self.state = phase.state;
        self.last_unfolded_pos = phase.folded;
        self.last_normalized_pos = phase.normalized;
        Ok(())
    }

    /// Moves the decoder to checkpoint `phase`, then decodes one symbol of
    /// component `component`.
    pub fn decode_from_phase(&mut self, phase: ANSCompressorPhase, component: BVGraphComponent) -> (r:
        Result<RawSymbol, AnsError>)
        requires
            old(self).wf(),
        ensures
            final(self).wf(),
            final(self).model == old(self).model,
            final(self).normalized_bits == old(self).normalized_bits,
            final(self).folded_bits == old(self).folded_bits,
            !old(self).phase_fits(phase) ==> r == Err::<RawSymbol, AnsError>(
                AnsError::ParameterError,
            ) && *final(self) == *old(self),
            old(self).phase_fits(phase) ==> match decode_step(
                *old(self).model,
                component.idx(),
                (
                    phase.state as nat,
                    old(self).normalized_bits@.take(phase.normalized as int),
                    old(self).folded_bits@.take(phase.folded as int),
                ),
            ) {
                Some((s, v)) => r == Ok::<RawSymbol, AnsError>(s as u64) && final(self).coder_view()
                    == v,
                None => r == Err::<RawSymbol, AnsError>(AnsError::CorruptedStream)
                    && final(self).coder_view() == (
                    phase.state as nat,
                    old(self).normalized_bits@.take(phase.normalized as int),
                    old(self).folded_bits@.take(phase.folded as int),
                ),
            },
    {
        match self.set_compressor_at_phase(&phase) {
            Err(e) => Err(e),
            Ok(()) => self.decode(component),
        }
    }
}

} // verus!
