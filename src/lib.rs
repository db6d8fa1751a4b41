//! A folded, streaming, multi-model rANS codec for the code streams of BV graphs.
use vstd::prelude::*;

pub use builder::ANSModel4EncoderBuilder;
pub use component::BVGraphComponent;
pub use data_utils::scale_freqs;
pub use decoder::ANSDecoder;
pub use encoder::{ANSCompressorPhase, ANSEncoder, Prelude};
pub use error::AnsError;
pub use estimators::{CostEstimator, EntropyEstimator, Log2Estimator};
pub use model4decoder::{ANSModel4Decoder, DecoderModelEntry};
pub use model4encoder::{ANSComponentModel4Encoder, ANSModel4Encoder, EncoderModelEntry};
pub use reader::{ANSBVGraphDecoderFactory, ANSBVGraphSeqDecoderFactory};
pub use single_model::{FoldedStreamANSCoder, SinglePrelude};
pub use writer::{BVGraphModelBuilder, BVGraphWriter};

pub mod bits;
pub mod builder;
pub mod codec;
pub mod component;
pub mod data_utils;
pub mod decoder;
pub mod encoder;
pub mod error;
pub mod estimators;
pub mod folding;
pub mod model4decoder;
pub mod model4encoder;
pub mod reader;
pub mod single_model;
pub mod writer;

verus! {

/// Number of bits moved between the state and the normalized stream at once.
pub const LOG2_B: u64 = 32;

/// The maximum raw symbol that can be encoded.
pub const MAX_RAW_SYMBOL: u64 = 0xFFFF_FFFF_FFFF;

/// The lower end of the interval `[2^32, 2^64)` in which the coder state is kept.
pub const INTERVAL_LOWER_BOUND: u64 = 0x1_0000_0000;

/// The default radix.
pub const FASTER_RADIX: usize = 8;

/// Mask of the 32 low bits of a state.
pub const NORMALIZATION_MASK: u64 = 0xFFFF_FFFF;

/// A raw symbol, as it comes from the input.
pub type RawSymbol = u64;

/// The state of the encoder and of the decoder.
pub type State = u64;

} // verus!
