use vstd::prelude::*;

pub mod audio;
pub mod fingerprint;
pub mod pipeline;
pub mod util;

verus! {

/// Sample rate that the audio is brought to before analysis.
pub const DEFAULT_SAMPLE_RATE: u32 = 11025;

/// Samples per analysis frame.
pub const DEFAULT_FRAME_SIZE: u32 = 4096;

/// Samples shared by consecutive frames.
pub const DEFAULT_FRAME_OVERLAP: u32 = 2731;

/// Taps of the temporal chroma filter.
pub const CHROMA_FILTER_LEN: u32 = 5;

/// A fingerprinting algorithm: a fixed set of parameters and classifiers.
#[derive(Clone, Copy, Debug, PartialEq, Eq, Structural)]
pub enum Algorithm {
    Test2,
}

impl Algorithm {
    pub open spec fn frame_size_spec(&self) -> nat {
        match self {
            Algorithm::Test2 => 4096,
        }
    }

    pub open spec fn frame_overlap_spec(&self) -> nat {
        match self {
            Algorithm::Test2 => 2731,
        }
    }

    pub open spec fn max_filter_width_spec(&self) -> nat {
        match self {
            Algorithm::Test2 => 16,
        }
    }

    pub fn sample_rate(&self) -> (r: u32)
        ensures
            r == DEFAULT_SAMPLE_RATE,
    {
        DEFAULT_SAMPLE_RATE
    }

    pub fn frame_size(&self) -> (r: u32)
        ensures
            r == self.frame_size_spec(),
    {
        match self {
            Algorithm::Test2 => DEFAULT_FRAME_SIZE,
        }
    }

    pub fn frame_overlap(&self) -> (r: u32)
        ensures
            r == self.frame_overlap_spec(),
    {
        match self {
            Algorithm::Test2 => DEFAULT_FRAME_OVERLAP,
        }
    }

    /// The widest classifier filter, in chroma rows.
    pub fn max_filter_width(&self) -> (r: u32)
        ensures
            r == self.max_filter_width_spec(),
    {
        match self {
            Algorithm::Test2 => 16,
        }
    }

    /// Samples between the starts of consecutive frames.
    pub fn item_duration(&self) -> (r: u32)
        ensures
            r == self.frame_size_spec() - self.frame_overlap_spec(),
    {
        self.frame_size() - self.frame_overlap()
    }

    /// Samples consumed before the first subfingerprint: the warm-up rows of
    /// the chroma filter and of the widest classifier, plus the frame overlap.
    pub fn delay(&self) -> (r: u32)
        ensures
            r == ((CHROMA_FILTER_LEN - 1) + (self.max_filter_width_spec() - 1)) * (
            self.frame_size_spec() - self.frame_overlap_spec()) + self.frame_overlap_spec(),
    {
        ((CHROMA_FILTER_LEN - 1) + (self.max_filter_width() - 1)) * self.item_duration()
            + self.frame_overlap()
    }
}

/// A fingerprinting session's configuration.
pub struct Chromaprint {
    algorithm: Algorithm,
}

impl Chromaprint {
    pub closed spec fn algorithm_spec(&self) -> Algorithm {
        self.algorithm
    }

    pub fn new(algorithm: Algorithm) -> (r: Self)
        ensures
            r.algorithm_spec() == algorithm,
    {
        Chromaprint { algorithm }
    }

    pub fn algorithm(&self) -> (r: Algorithm)
        ensures
            r == self.algorithm_spec(),
    {
        self.algorithm
    }
}

} // verus!
