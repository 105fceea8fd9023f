//! The whole build: the three passes, one after the other.

use crate::bigrams::{
    bigram_map, bigram_views, blocks_entered, build_bigrams, kept_bigrams,
    lemma_bigram_map_entry, lemma_bigram_map_unlinked, lemma_blocks_entered_unique,
    lemma_kept_bigrams_known, prefixes_of, BigramLine,
};
use crate::blocks::first_fault;
use crate::model::{BigramRecord, BuildError, LogProb, TrigramRecord, UnigramRecord};
use crate::symbols::WordTable;
use crate::table::{BigramTable, Pair};
use crate::trigrams::{
    build_trigrams, first_trigram_fault, kept_trigrams, lemma_kept_trigrams_known,
    lemma_pair_blocks_unique, pair_blocks_entered, pair_within, pairs_of, trigram_records,
    trigram_views, unlinked, TrigramLine,
};
use crate::unigrams::{
    fresh_records, kept_unigrams, lemma_kept_are_allowed, lemma_unigram_log_probs,
    select_unigrams, total_count, unigram_views, words_of, Unigram,
};
use vstd::prelude::*;

verus! {

/// The finished model: the symbol table and the three tables.
pub struct LanguageModel {
    /// The kept words; the position of a word is its symbol id.
    pub symbols: WordTable,
    /// The order-1 table; the position of a record is its symbol id.
    pub unigrams: Vec<UnigramRecord>,
    /// The order-2 table.
    pub bigrams: BigramTable,
    /// The order-3 table; the position of a record is its dense index.
    pub trigrams: Vec<TrigramRecord>,
}

/// What a model holds.
pub struct ModelView {
    pub symbols: Seq<Seq<char>>,
    pub unigrams: Seq<UnigramRecord>,
    pub bigrams: Map<Pair, BigramRecord>,
    pub trigrams: Seq<TrigramRecord>,
}

impl View for LanguageModel {
    type V = ModelView;

    open spec fn view(&self) -> ModelView {
        ModelView {
            symbols: self.symbols@,
            unigrams: self.unigrams@,
            bigrams: self.bigrams@,
            trigrams: self.trigrams@,
        }
    }
}

/// What a build reads: the allowed words, the lines of the three sorted
/// count files, and the number of unigrams to keep.
pub struct Sources {
    pub dictionary: Seq<Seq<char>>,
    pub unigrams: Seq<Unigram>,
    pub bigrams: Seq<BigramLine>,
    pub trigrams: Seq<TrigramLine>,
    pub max_no_words: nat,
}

impl Sources {
    /// The unigrams that are kept.
    pub open spec fn kept(self) -> Seq<Unigram> {
        kept_unigrams(self.dictionary, self.unigrams, self.max_no_words)
    }

    /// The bigrams whose words were kept.
    pub open spec fn kept_pairs(self) -> Seq<crate::bigrams::Bigram> {
        kept_bigrams(words_of(self.kept()), self.bigrams)
    }

    /// The trigrams whose words were kept.
    pub open spec fn kept_triples(self) -> Seq<crate::trigrams::Trigram> {
        kept_trigrams(words_of(self.kept()), self.trigrams)
    }

    /// The order-2 table as the second pass leaves it.
    pub open spec fn unlinked_pairs(self) -> Map<Pair, BigramRecord> {
        bigram_map(self.kept_pairs(), fresh_records(self.kept()))
    }

    /// Why the build stops, if it does: the fault of the first pass that
    /// has one.
    pub open spec fn fault(self) -> Option<BuildError> {
        if total_count(self.kept()) > u32::MAX {
            Some(BuildError::CountOverflow)
        } else if self.kept().len() > u32::MAX {
            Some(BuildError::TooManyRecords)
        } else if first_fault(prefixes_of(self.kept_pairs())) is Some {
            first_fault(prefixes_of(self.kept_pairs()))
        } else {
            first_trigram_fault(self.unlinked_pairs(), self.kept_triples())
        }
    }

    /// Whether `model` is what the build makes of these sources.
    pub open spec fn built(self, model: ModelView) -> bool {
        &&& model.symbols == words_of(self.kept())
        &&& blocks_entered(fresh_records(self.kept()), model.unigrams, prefixes_of(self.kept_pairs()))
        &&& pair_blocks_entered(self.unlinked_pairs(), model.bigrams, pairs_of(self.kept_triples()))
        &&& model.trigrams == trigram_records(self.kept_triples(), self.unlinked_pairs())
    }
}

/// The same sources give the same model: whatever two builds make of them
/// is equal, table by table.
pub proof fn lemma_build_is_determined(sources: Sources, one: ModelView, two: ModelView)
    requires
        sources.built(one),
        sources.built(two),
    ensures
        one == two,
{
    lemma_blocks_entered_unique(
        fresh_records(sources.kept()),
        one.unigrams,
        two.unigrams,
        prefixes_of(sources.kept_pairs()),
    );
    lemma_pair_blocks_unique(
        sources.unlinked_pairs(),
        one.bigrams,
        two.bigrams,
        pairs_of(sources.kept_triples()),
    );
}

/// Nothing in a model names a word that was not kept, and no kept word is
/// one that the dictionary does not allow.
pub proof fn lemma_model_names_kept_words(sources: Sources, model: ModelView)
    requires
        sources.built(model),
        sources.fault() is None,
    ensures
        forall|i: int|
            0 <= i < model.symbols.len() ==> sources.dictionary.contains(
                #[trigger] model.symbols[i],
            ),
        forall|pair: Pair| #[trigger]
            model.bigrams.contains_key(pair) ==> pair.0 < model.symbols.len() && pair.1
                < model.symbols.len(),
        forall|i: int|
            0 <= i < model.trigrams.len() ==> (#[trigger] model.trigrams[i]).suffix
                < model.symbols.len(),
{
    let kept = sources.kept();
    let words = words_of(kept);
    let pairs = sources.kept_pairs();
    let triples = sources.kept_triples();
    assert forall|i: int| 0 <= i < model.symbols.len() implies sources.dictionary.contains(
        #[trigger] model.symbols[i],
    ) by {
        lemma_kept_are_allowed(sources.dictionary, sources.unigrams, sources.max_no_words, i);
    }
    assert(pairs.len() <= u32::MAX) by {
        if pairs.len() > u32::MAX {
            lemma_long_input_faults(prefixes_of(pairs));
        }
    }
    assert forall|pair: Pair| #[trigger] model.bigrams.contains_key(pair) implies pair.0
        < model.symbols.len() && pair.1 < model.symbols.len() by {
        if sources.unlinked_pairs().contains_key(pair) {
            lemma_bigram_map_entry(pairs, fresh_records(kept), pair);
            let i = choose|i: int|
                0 <= i < pairs.len() && (#[trigger] pairs[i]).prefix == pair.0 && pairs[i].suffix
                    == pair.1;
            lemma_kept_bigrams_known(words, sources.bigrams, i);
        } else {
            assert(pairs_of(triples).contains(pair));
            let i = choose|i: int| 0 <= i < triples.len() && pairs_of(triples)[i] == pair;
            lemma_kept_trigrams_known(words, sources.trigrams, i);
        }
    }
    assert forall|i: int| 0 <= i < model.trigrams.len() implies (#[trigger] model.trigrams[i]).suffix
        < model.symbols.len() by {
        lemma_kept_trigrams_known(words, sources.trigrams, i);
    }
}

/// More records than a 32-bit index can number are a fault.
proof fn lemma_long_input_faults(keys: Seq<int>)
    requires
        keys.len() > u32::MAX,
    ensures
        first_fault(keys) is Some,
    decreases keys.len(),
{
}

/// Where the counts of the kept unigrams are not all zero, the
/// log-probability of every unigram of a model is at most zero, and zero
/// exactly where the unigram has all of the total count.
pub proof fn lemma_model_unigram_log_probs(sources: Sources, model: ModelView, i: int)
    requires
        sources.built(model),
        sources.fault() is None,
        total_count(sources.kept()) > 0,
        0 <= i < model.unigrams.len(),
    ensures
        model.unigrams[i].log_prob.at_most_zero(),
        model.unigrams[i].log_prob.is_zero() <==> model.unigrams[i].count == total_count(
            sources.kept(),
        ),
{
    lemma_unigram_log_probs(sources.kept(), i);
}

/// Where no kept bigram was counted more often than its first word, the
/// log-probability of a bigram of a model is at most zero if the count that
/// it is set against is not zero, and it is zero exactly where the two
/// counts are the same.
pub proof fn lemma_model_bigram_log_probs(sources: Sources, model: ModelView, pair: Pair)
    requires
        sources.built(model),
        sources.fault() is None,
        forall|k: int|
            0 <= k < sources.kept_pairs().len() ==> (#[trigger] sources.kept_pairs()[k]).count
                <= sources.kept()[sources.kept_pairs()[k].prefix as int].1,
        model.bigrams.contains_key(pair),
        model.bigrams[pair].log_prob matches LogProb::Ratio { count, normalizer } ==> normalizer
            > 0,
    ensures
        model.bigrams[pair].log_prob.at_most_zero(),
        model.bigrams[pair].log_prob matches LogProb::Ratio { count, normalizer } ==> (
        model.bigrams[pair].log_prob.is_zero() <==> count == normalizer),
{
    let pairs = sources.kept_pairs();
    let start = sources.unlinked_pairs();
    assert(model.bigrams[pair].log_prob == unlinked(start, pair).log_prob);
    if start.contains_key(pair) {
        assert(pairs.len() <= u32::MAX) by {
            if pairs.len() > u32::MAX {
                lemma_long_input_faults(prefixes_of(pairs));
            }
        }
        lemma_bigram_map_entry(pairs, fresh_records(sources.kept()), pair);
        assert(prefixes_of(pairs).len() == pairs.len());
        let i = choose|i: int|
            0 <= i < pairs.len() && (#[trigger] pairs[i]).prefix == pair.0 && pairs[i].suffix
                == pair.1 && start[pair].log_prob == (LogProb::Ratio {
                count: pairs[i].count,
                normalizer: fresh_records(sources.kept())[pairs[i].prefix as int].count,
            });
        lemma_kept_bigrams_known(words_of(sources.kept()), sources.bigrams, i);
    }
}

/// Where no kept trigram was counted more often than its first two words,
/// the log-probability of a trigram of a model is at most zero if the count
/// that it is set against is not zero, and it is zero exactly where the two
/// counts are the same.
pub proof fn lemma_model_trigram_log_probs(sources: Sources, model: ModelView, i: int)
    requires
        sources.built(model),
        forall|k: int|
            0 <= k < sources.kept_triples().len() ==> (#[trigger] sources.kept_triples()[k]).count
                <= unlinked(
                sources.unlinked_pairs(),
                (sources.kept_triples()[k].first, sources.kept_triples()[k].second),
            ).count,
        0 <= i < model.trigrams.len(),
        model.trigrams[i].log_prob matches LogProb::Ratio { count, normalizer } ==> normalizer > 0,
    ensures
        model.trigrams[i].log_prob.at_most_zero(),
        model.trigrams[i].log_prob matches LogProb::Ratio { count, normalizer } ==> (
        model.trigrams[i].log_prob.is_zero() <==> count == normalizer),
{
    assert(sources.kept_triples()[i].count <= unlinked(
        sources.unlinked_pairs(),
        (sources.kept_triples()[i].first, sources.kept_triples()[i].second),
    ).count);
}

/// Builds the model from the allowed words and the lines of the three
/// sorted count files, keeping the `max_no_words` most frequent allowed
/// unigrams.
pub fn build_model(
    dictionary: &WordTable,
    unigrams: &Vec<(String, u32)>,
    bigrams: &Vec<(String, String, u32)>,
    trigrams: &Vec<(String, String, String, u32)>,
    max_no_words: usize,
) -> (outcome: Result<LanguageModel, BuildError>)
    requires
        dictionary.wf(),
    ensures
        ({
            let sources = Sources {
                dictionary: dictionary@,
                unigrams: unigram_views(unigrams@),
                bigrams: bigram_views(bigrams@),
                trigrams: trigram_views(trigrams@),
                max_no_words: max_no_words as nat,
            };
            match outcome {
                Ok(model) => sources.fault() is None && model.symbols.wf() && sources.built(model@),
                Err(error) => sources.fault() == Some(error),
            }
        }),
{
    let first = match select_unigrams(dictionary, unigrams, max_no_words) {
        Ok(first) => first,
        Err(error) => {
            return Err(error);
        },
    };
    proof {
        lemma_bigram_map_unlinked(
            kept_bigrams(first.symbols@, bigram_views(bigrams@)),
            first.records@,
        );
    }
    let second = match build_bigrams(first, bigrams) {
        Ok(second) => second,
        Err(error) => {
            return Err(error);
        },
    };
    let third = match build_trigrams(second.symbols, second.table, trigrams) {
        Ok(third) => third,
        Err(error) => {
            return Err(error);
        },
    };
    Ok(
        LanguageModel {
            symbols: third.symbols,
            unigrams: second.unigrams,
            bigrams: third.table,
            trigrams: third.records,
        },
    )
}

} // verus!
