//! The per-component models that the decoder uses: one entry per frame slot.

use crate::codec::MAX_LOG2_FRAME_SIZE;
use crate::component::COMPONENTS;
use crate::folding::{quasi_folded, MAX_RADIX};
use crate::model4encoder::{freq_sum, ANSComponentModel4Encoder, ANSModel4Encoder};
use vstd::arithmetic::power2::*;
use vstd::prelude::*;

verus! {

/// What the decoder knows of one frame slot: the folded symbol that owns it.
#[derive(Clone, Copy, Debug, PartialEq, Eq, Structural)]
pub struct DecoderModelEntry {
    /// The folded symbol.
    pub symbol: u32,
    /// Its frequency.
    pub freq: u32,
    /// Its cumulative frequency: its first slot.
    pub cumul_freq: u32,
    /// Its quasi-folded word.
    pub quasi_folded: u64,
}

/// Entry `e` describes slot `slot` of the encoder model `m`.
pub open spec fn slot_ok(m: ANSComponentModel4Encoder, e: DecoderModelEntry, slot: int) -> bool {
    &&& e.symbol < m.table@.len()
    &&& e.freq == m.table@[e.symbol as int].freq
    &&& e.cumul_freq == m.table@[e.symbol as int].cumul_freq
    &&& e.quasi_folded == m.table@[e.symbol as int].quasi_folded
    &&& e.cumul_freq <= slot < e.cumul_freq + e.freq
}

/// The decoder's model of every component.
#[derive(Clone, Debug)]
pub struct ANSModel4Decoder {
    /// For each component, one entry per frame slot.
    pub tables: Vec<Vec<DecoderModelEntry>>,
    /// For each component, the log2 of its frame size.
    pub frame_sizes: Vec<usize>,
    /// For each component, its radix.
    pub radixes: Vec<usize>,
}

impl ANSModel4Decoder {
    /// Well-formedness: each slot lies within the slots of its symbol.
    pub open spec fn wf(&self) -> bool {
        &&& self.tables@.len() == COMPONENTS
        &&& self.frame_sizes@.len() == COMPONENTS
        &&& self.radixes@.len() == COMPONENTS
        &&& forall|c: int|
            0 <= c < COMPONENTS ==> {
                &&& 1 <= #[trigger] self.frame_sizes@[c] <= MAX_LOG2_FRAME_SIZE
                &&& 1 <= self.radixes@[c] <= MAX_RADIX
                &&& self.tables@[c]@.len() == pow2(self.frame_sizes@[c] as nat)
                &&& forall|s: int|
                    0 <= s < self.tables@[c]@.len() ==> {
                        let e = #[trigger] self.tables@[c]@[s];
                        &&& e.cumul_freq <= s < e.cumul_freq + e.freq
                        &&& e.freq <= pow2(self.frame_sizes@[c] as nat)
                    }
            }
    }

    /// The model was built from the encoder tables `tables`.
    pub open spec fn built_from(&self, tables: Seq<ANSComponentModel4Encoder>) -> bool {
        &&& self.wf()
        &&& tables.len() == COMPONENTS
        &&& forall|c: int|
            0 <= c < COMPONENTS ==> {
                &&& #[trigger] self.frame_sizes@[c] == tables[c].frame_size
                &&& self.radixes@[c] == tables[c].radix
                &&& forall|s: int|
                    0 <= s < self.tables@[c]@.len() ==> slot_ok(
                        tables[c],
                        #[trigger] self.tables@[c]@[s],
                        s,
                    )
            }
    }

    /// Builds the decoder's model from the encoder's tables.
    pub fn new(tables: &Vec<ANSComponentModel4Encoder>) -> (r: Self)
        requires
            (ANSModel4Encoder { tables: *tables }).wf(),
        ensures
            r.built_from(tables@),
    {
        let mut out: Vec<Vec<DecoderModelEntry>> = Vec::new();
        let mut frame_sizes: Vec<usize> = Vec::new();
        let mut radixes: Vec<usize> = Vec::new();
        let mut c: usize = 0;
        while c < tables.len()
            invariant
                (ANSModel4Encoder { tables: *tables }).wf(),
                c <= tables@.len(),
                out@.len() == c,
                frame_sizes@.len() == c,
                radixes@.len() == c,
                forall|k: int|
                    0 <= k < c ==> {
                        &&& #[trigger] frame_sizes@[k] == tables@[k].frame_size
                        &&& radixes@[k] == tables@[k].radix
                        &&& out@[k]@.len() == pow2(tables@[k].frame_size as nat)
                        &&& forall|s: int|
                            0 <= s < out@[k]@.len() ==> slot_ok(tables@[k], #[trigger] out@[k]@[s], s)
                    },
            decreases tables@.len() - c,
        {
            assert(tables@[c as int].wf());
            let t = Self::component_slots(&tables[c]);
            out.push(t);
            frame_sizes.push(tables[c].frame_size);
            radixes.push(tables[c].radix);
            c = c + 1;
        }
        let r = ANSModel4Decoder { tables: out, frame_sizes, radixes };
        proof {
            assert forall|k: int| 0 <= k < COMPONENTS implies {
                &&& 1 <= #[trigger] r.frame_sizes@[k] <= MAX_LOG2_FRAME_SIZE
                &&& 1 <= r.radixes@[k] <= MAX_RADIX
                &&& r.tables@[k]@.len() == pow2(r.frame_sizes@[k] as nat)
                &&& forall|s: int|
                    0 <= s < r.tables@[k]@.len() ==> {
                        let e = #[trigger] r.tables@[k]@[s];
                        &&& e.cumul_freq <= s < e.cumul_freq + e.freq
                        &&& e.freq <= pow2(r.frame_sizes@[k] as nat)
                    }
            } by {
                assert(tables@[k].wf());
                assert(r.frame_sizes@[k] == tables@[k].frame_size);
                assert forall|s: int| 0 <= s < r.tables@[k]@.len() implies {
                    let e = #[trigger] r.tables@[k]@[s];
                    &&& e.cumul_freq <= s < e.cumul_freq + e.freq
                    &&& e.freq <= pow2(r.frame_sizes@[k] as nat)
                } by {
                    assert(slot_ok(tables@[k], r.tables@[k]@[s], s));
                    tables@[k].lemma_entry_in_frame(r.tables@[k]@[s].symbol as int);
                }
            }
        }
        r
    }

    /// Lays the symbols of one component model out over its frame slots.
    fn component_slots(m: &ANSComponentModel4Encoder) -> (r: Vec<DecoderModelEntry>)
        requires
            m.wf(),
        ensures
            r@.len() == pow2(m.frame_size as nat),
            forall|s: int| 0 <= s < r@.len() ==> slot_ok(*m, #[trigger] r@[s], s),
    {
        let mut r: Vec<DecoderModelEntry> = Vec::new();
        let mut x: usize = 0;
        while x < m.table.len()
            invariant
                m.wf(),
                x <= m.table@.len(),
                r@.len() == freq_sum(m.table@, x as int),
                forall|s: int| 0 <= s < r@.len() ==> slot_ok(*m, #[trigger] r@[s], s),
            decreases m.table@.len() - x,
        {
            let e = m.table[x];
            assert(m.entry_ok(x as int));
            let entry = DecoderModelEntry {
                symbol: x as u32,
                freq: e.freq,
                cumul_freq: e.cumul_freq,
                quasi_folded: e.quasi_folded,
            };
            let mut j: u32 = 0;
            while j < e.freq
                invariant
                    m.wf(),
                    x < m.table@.len(),
                    e == m.table@[x as int],
                    m.entry_ok(x as int),
                    entry.symbol == x,
                    entry.freq == e.freq,
                    entry.cumul_freq == e.cumul_freq,
                    entry.quasi_folded == e.quasi_folded,
                    j <= e.freq,
                    r@.len() == freq_sum(m.table@, x as int) + j,
                    forall|s: int| 0 <= s < r@.len() ==> slot_ok(*m, #[trigger] r@[s], s),
                decreases e.freq - j,
            {
                r.push(entry);
                j = j + 1;
            }
            x = x + 1;
        }
        r
    }
}

} // verus!
