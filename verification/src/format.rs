//! Format constants of the PhonoPaper frequency axis.

use vstd::prelude::*;

verus! {

/// Number of frequency subdivisions per semitone.
pub const MULTITONES: usize = 4;

/// Number of semitones in an octave.
pub const SEMITONES_PER_OCTAVE: usize = 12;

/// Number of octaves covered by the format.
pub const OCTAVES: usize = 8;

/// Total number of frequency bins (8 octaves × 12 semitones × 4 subdivisions).
pub const TOTAL_BINS: usize = 384;

/// Number of frequency bins per octave (12 semitones × 4 subdivisions).
pub const BINS_PER_OCTAVE: usize = 48;

/// Standard audio sample rate used for synthesis and analysis.
pub const SAMPLE_RATE: u32 = 44100;

/// The bin count is the product of its three factors.
pub proof fn lemma_bin_counts()
    ensures
        TOTAL_BINS == OCTAVES * SEMITONES_PER_OCTAVE * MULTITONES,
        BINS_PER_OCTAVE == SEMITONES_PER_OCTAVE * MULTITONES,
        TOTAL_BINS == OCTAVES * BINS_PER_OCTAVE,
{
}

} // verus!
