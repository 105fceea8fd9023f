//! The records of the three tables, and the ways in which a build fails.

use vstd::prelude::*;

verus! {

/// A log-probability, held as the two counts whose ratio it is the natural
/// logarithm of. The counts are kept in place of the logarithm so that the
/// tables stay exact; whoever writes a table out takes the logarithm.
#[derive(Clone, Copy, Debug, PartialEq, Eq, Structural)]
pub enum LogProb {
    /// The log-probability of an entry that was never counted: zero.
    Zero,
    /// `ln(count / normalizer)`.
    Ratio { count: u32, normalizer: u32 },
}

impl LogProb {
    /// Whether the logarithm is at most zero: the count it is set against
    /// is not zero, and the count is no larger.
    pub open spec fn at_most_zero(self) -> bool {
        match self {
            LogProb::Zero => true,
            LogProb::Ratio { count, normalizer } => count <= normalizer && normalizer > 0,
        }
    }

    /// Whether the logarithm is exactly zero: the two counts are the
    /// same and not zero.
    pub open spec fn is_zero(self) -> bool {
        match self {
            LogProb::Zero => true,
            LogProb::Ratio { count, normalizer } => count == normalizer && normalizer > 0,
        }
    }
}

/// One kept unigram. Its id is its position in the order-1 table.
#[derive(Clone, Copy, Debug, PartialEq, Eq, Structural)]
pub struct UnigramRecord {
    /// `ln(count / total count of the kept unigrams)`.
    pub log_prob: LogProb,
    /// How often the word was seen.
    pub count: u32,
    /// The dense index of the first kept bigram that begins with this word.
    pub offset: u32,
    /// The number of kept bigrams that begin with this word.
    pub extent: u16,
}

/// One kept bigram, found in the order-2 table under its two symbol ids.
#[derive(Clone, Copy, Debug, PartialEq, Eq, Structural)]
pub struct BigramRecord {
    /// The dense index of the bigram: its place in the order of discovery.
    pub index: u32,
    /// `ln(count / count of the first word)`.
    pub log_prob: LogProb,
    /// How often the pair was seen.
    pub count: u32,
    /// The dense index of the first kept trigram that begins with this pair.
    pub offset: u32,
    /// The number of kept trigrams that begin with this pair.
    pub extent: u16,
}

/// One kept trigram. Its first two words are those of the bigram in whose
/// block it stands.
#[derive(Clone, Copy, Debug, PartialEq, Eq, Structural)]
pub struct TrigramRecord {
    /// The symbol id of the third word.
    pub suffix: u32,
    /// `ln(count / count of the first two words)`.
    pub log_prob: LogProb,
    /// The dense index of the bigram made of the second and third word.
    pub backoff: u32,
}

/// Why a build stopped.
#[derive(Clone, Copy, Debug, PartialEq, Eq, Structural)]
pub enum BuildError {
    /// The counts of the kept unigrams add up to more than 32 bits hold.
    CountOverflow,
    /// A table would hold more records than a 32-bit index can number.
    TooManyRecords,
    /// More records share one prefix than a 16-bit block length can hold.
    BlockTooLong,
    /// A prefix came back after another prefix had followed it: the input
    /// is not sorted.
    PrefixRecurs,
    /// The bigram made of the last two words of a trigram is not in the
    /// order-2 table.
    MissingBackoff,
}

} // verus!
