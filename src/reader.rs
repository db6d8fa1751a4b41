//! Factories of decoders over an encoded graph: one seeded at the checkpoint
//! of a given node, one seeded at the end of the streams.
use crate::codec::valid_state;
use crate::decoder::ANSDecoder;
use crate::encoder::{ANSCompressorPhase, Prelude};
use crate::error::AnsError;
use crate::model4decoder::ANSModel4Decoder;
use crate::model4encoder::ANSModel4Encoder;
use vstd::prelude::*;

verus! {

/// Hands out decoders that start at the checkpoint of a node.
#[derive(Debug)]
pub struct ANSBVGraphDecoderFactory<'a> {
    /// One checkpoint per node, and a trailing one written at flush.
    pub phases: Vec<ANSCompressorPhase>,
    /// What the encoder produced.
    pub prelude: &'a Prelude,
    /// The decoder's model of the prelude's tables.
    pub model: ANSModel4Decoder,
}

impl<'a> ANSBVGraphDecoderFactory<'a> {
    /// Creates the factory, building the decoder's model.
    pub fn new(prelude: &'a Prelude, phases: Vec<ANSCompressorPhase>) -> (r: Self)
        requires
            (ANSModel4Encoder { tables: prelude.tables }).wf(),
        ensures
            r.model.built_from(prelude.tables@),
            r.prelude == prelude,
            r.phases == phases,
    {
        let model = ANSModel4Decoder::new(&prelude.tables);
        ANSBVGraphDecoderFactory { phases, prelude, model }
    }

    /// Returns a decoder seeded at the checkpoint of node `node`, recorded
    /// after its values were encoded, from which they are read in order.
    ///
    /// Fails with `ParameterError` when there is no such checkpoint or it does
    /// not fit the streams.
    pub fn new_decoder(&self, node: usize) -> (r: Result<ANSDecoder<'_>, AnsError>)
        requires
            self.model.wf(),
        ensures
            r is Ok <==> node < self.phases@.len() && ({
                let p = self.phases@[node as int];
                valid_state(p.state as nat) && p.folded <= self.prelude.folded_bits@.len()
                    && p.normalized <= self.prelude.normalized_bits@.len()
            }),
            r is Err ==> r == Err::<ANSDecoder<'_>, AnsError>(AnsError::ParameterError),
            r matches Ok(d) ==> {
                let p = self.phases@[node as int];
                &&& d.wf()
                &&& d.model == &self.model
                &&& d.normalized_bits == &self.prelude.normalized_bits
                &&& d.folded_bits == &self.prelude.folded_bits
                &&& d.coder_view() == (
                    p.state as nat,
                    self.prelude.normalized_bits@.take(p.normalized as int),
                    self.prelude.folded_bits@.take(p.folded as int),
                )
            },
    {
        if node >= self.phases.len() {
            return Err(AnsError::ParameterError);
        }
        let p = self.phases[node];
        proof {
            crate::bits::lemma_pow2_facts();
        }
        if p.state < 0x1_0000_0000 || p.folded > self.prelude.folded_bits.len() || p.normalized
            > self.prelude.normalized_bits.len() {
            return Err(AnsError::ParameterError);
        }
        Ok(
            ANSDecoder {
                model: &self.model,
                normalized_bits: &self.prelude.normalized_bits,
                folded_bits: &self.prelude.folded_bits,
                state: p.state,
                last_unfolded_pos: p.folded,
                last_normalized_pos: p.normalized,
            },
        )
    }
}

/// Hands out decoders that start at the end of the streams.
#[derive(Debug)]
pub struct ANSBVGraphSeqDecoderFactory<'a> {
    /// What the encoder produced.
    pub prelude: &'a Prelude,
    /// The decoder's model of the prelude's tables.
    pub model: ANSModel4Decoder,
}

impl<'a> ANSBVGraphSeqDecoderFactory<'a> {
    /// Creates the factory, building the decoder's model.
    pub fn new(prelude: &'a Prelude) -> (r: Self)
        requires
            (ANSModel4Encoder { tables: prelude.tables }).wf(),
        ensures
            r.model.built_from(prelude.tables@),
            r.prelude == prelude,
    {
        let model = ANSModel4Decoder::new(&prelude.tables);
        ANSBVGraphSeqDecoderFactory { prelude, model }
    }

    /// Returns a decoder seeded with the final state, at the end of both
    /// streams. Fails with `ParameterError` when that state is not valid.
    pub fn new_decoder(&self) -> (r: Result<ANSDecoder<'_>, AnsError>)
        requires
            self.model.built_from(self.prelude.tables@),
        ensures
            r is Ok <==> valid_state(self.prelude.state as nat),
            r is Err ==> r == Err::<ANSDecoder<'_>, AnsError>(AnsError::ParameterError),
            r matches Ok(d) ==> {
                &&& d.wf()
                &&& d.model == &self.model
                &&& d.coder_view() == (
                    self.prelude.state as nat,
                    self.prelude.normalized_bits@,
                    self.prelude.folded_bits@,
                )
            },
    {
        proof {
            crate::bits::lemma_pow2_facts();
        }
        if self.prelude.state < 0x1_0000_0000 {
            return Err(AnsError::ParameterError);
        }
        Ok(ANSDecoder::new(self.prelude, &self.model))
    }
}

} // verus!
