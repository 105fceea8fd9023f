use ngram_lm::bigrams::{build_bigrams, BigramBuilder};
use ngram_lm::model::{BigramRecord, BuildError, LogProb, TrigramRecord, UnigramRecord};
use ngram_lm::pipeline::build_model;
use ngram_lm::symbols::WordTable;
use ngram_lm::trigrams::{build_trigrams, TrigramBuilder};
use ngram_lm::unigrams::{select_unigrams, UnigramFilter};

fn dictionary(words: &[&str]) -> WordTable {
    WordTable::from_words(words.iter().map(|w| w.to_string()).collect())
}

fn unigrams(lines: &[(&str, u32)]) -> Vec<(String, u32)> {
    lines.iter().map(|l| (l.0.to_string(), l.1)).collect()
}

fn bigrams(lines: &[(&str, &str, u32)]) -> Vec<(String, String, u32)> {
    lines.iter().map(|l| (l.0.to_string(), l.1.to_string(), l.2)).collect()
}

fn trigrams(lines: &[(&str, &str, &str, u32)]) -> Vec<(String, String, String, u32)> {
    lines.iter().map(|l| (l.0.to_string(), l.1.to_string(), l.2.to_string(), l.3)).collect()
}

fn ratio(count: u32, normalizer: u32) -> LogProb {
    LogProb::Ratio { count, normalizer }
}

fn words(table: &WordTable) -> Vec<String> {
    table.words().clone()
}

#[test]
fn unigrams_outside_the_dictionary_are_dropped() {
    let found = select_unigrams(&dictionary(&["a", "b"]), &unigrams(&[("a", 3), ("b", 3), ("c", 5)]), 2)
        .ok()
        .unwrap();
    assert_eq!(words(&found.symbols), vec!["a".to_string(), "b".to_string()]);
    assert_eq!(
        found.records,
        vec![
            UnigramRecord { log_prob: ratio(3, 6), count: 3, offset: 0, extent: 0 },
            UnigramRecord { log_prob: ratio(3, 6), count: 3, offset: 0, extent: 0 },
        ]
    );
}

#[test]
fn the_most_frequent_unigrams_are_kept_in_input_order() {
    let lines = unigrams(&[("a", 5), ("b", 1), ("c", 9), ("d", 7), ("e", 2), ("f", 8)]);
    let found = select_unigrams(&dictionary(&["a", "b", "c", "d", "e", "f"]), &lines, 3).ok().unwrap();
    assert_eq!(words(&found.symbols), vec!["c".to_string(), "d".to_string(), "f".to_string()]);
    let counts: Vec<u32> = found.records.iter().map(|r| r.count).collect();
    assert_eq!(counts, vec![9, 7, 8]);
    assert_eq!(found.records[0].log_prob, ratio(9, 24));
}

#[test]
fn counts_that_tie_at_the_bar_are_all_kept() {
    let lines = unigrams(&[("a", 4), ("b", 9), ("c", 4), ("d", 1), ("e", 4)]);
    let found = select_unigrams(&dictionary(&["a", "b", "c", "d", "e"]), &lines, 2).ok().unwrap();
    assert_eq!(
        words(&found.symbols),
        vec!["a".to_string(), "b".to_string(), "c".to_string(), "e".to_string()]
    );
}

#[test]
fn an_early_unigram_falls_when_the_bar_rises() {
    let lines = unigrams(&[("a", 1), ("b", 2), ("c", 3), ("d", 4)]);
    let found = select_unigrams(&dictionary(&["a", "b", "c", "d"]), &lines, 2).ok().unwrap();
    assert_eq!(words(&found.symbols), vec!["c".to_string(), "d".to_string()]);
}

#[test]
fn with_no_limit_given_every_allowed_unigram_is_kept() {
    let lines = unigrams(&[("a", 1), ("x", 7), ("b", 0)]);
    let found = select_unigrams(&dictionary(&["a", "b"]), &lines, 0).ok().unwrap();
    assert_eq!(words(&found.symbols), vec!["a".to_string(), "b".to_string()]);
    assert_eq!(found.records[1].log_prob, ratio(0, 1));
}

#[test]
fn fewer_unigrams_than_the_limit_are_all_kept() {
    let lines = unigrams(&[("a", 1), ("b", 7)]);
    let found = select_unigrams(&dictionary(&["a", "b"]), &lines, 100_000).ok().unwrap();
    assert_eq!(words(&found.symbols), vec!["a".to_string(), "b".to_string()]);
}

#[test]
fn the_filter_can_be_fed_line_by_line() {
    let allowed = dictionary(&["a", "b", "c"]);
    let mut filter = UnigramFilter::new(1);
    filter.feed(&allowed, "a".to_string(), 2);
    filter.feed(&allowed, "z".to_string(), 50);
    filter.feed(&allowed, "b".to_string(), 6);
    filter.feed(&allowed, "c".to_string(), 4);
    let found = filter.finish().ok().unwrap();
    assert_eq!(words(&found.symbols), vec!["b".to_string()]);
    assert_eq!(found.records[0].log_prob, ratio(6, 6));
}

#[test]
fn counts_beyond_32_bits_stop_the_build() {
    let lines = unigrams(&[("a", 4_000_000_000), ("b", 4_000_000_000)]);
    let outcome = select_unigrams(&dictionary(&["a", "b"]), &lines, 5);
    assert_eq!(outcome.err(), Some(BuildError::CountOverflow));
}

fn two_words() -> ngram_lm::unigrams::Unigrams {
    select_unigrams(&dictionary(&["a", "b"]), &unigrams(&[("a", 3), ("b", 3), ("c", 5)]), 2).ok().unwrap()
}

#[test]
fn bigram_counts_are_set_against_the_first_word() {
    let found = build_bigrams(two_words(), &bigrams(&[("a", "b", 2), ("b", "a", 2), ("b", "b", 1)])).ok().unwrap();
    assert_eq!(found.kept, 3);
    assert_eq!(
        found.table.rows(),
        vec![
            ((0, 1), BigramRecord { index: 0, log_prob: ratio(2, 3), count: 2, offset: 0, extent: 0 }),
            ((1, 0), BigramRecord { index: 1, log_prob: ratio(2, 3), count: 2, offset: 0, extent: 0 }),
            ((1, 1), BigramRecord { index: 2, log_prob: ratio(1, 3), count: 1, offset: 0, extent: 0 }),
        ]
    );
    assert_eq!(
        found.unigrams,
        vec![
            UnigramRecord { log_prob: ratio(3, 6), count: 3, offset: 0, extent: 1 },
            UnigramRecord { log_prob: ratio(3, 6), count: 3, offset: 1, extent: 2 },
        ]
    );
}

#[test]
fn a_bigram_with_an_unknown_word_leaves_no_trace() {
    let lines = bigrams(&[("a", "b", 2), ("a", "c", 9), ("b", "a", 2), ("c", "a", 4), ("c", "c", 1)]);
    let found = build_bigrams(two_words(), &lines).ok().unwrap();
    assert_eq!(found.kept, 2);
    assert_eq!(found.table.len(), 2);
    assert_eq!(found.table.get(0, 1).map(|r| r.index), Some(0));
    assert_eq!(found.table.get(1, 0).map(|r| r.index), Some(1));
    let blocks: Vec<(u32, u16)> = found.unigrams.iter().map(|r| (r.offset, r.extent)).collect();
    assert_eq!(blocks, vec![(0, 1), (1, 1)]);
}

#[test]
fn a_unigram_without_bigrams_has_an_empty_block() {
    let found = build_bigrams(two_words(), &bigrams(&[("b", "a", 1), ("b", "b", 1)])).ok().unwrap();
    let blocks: Vec<(u32, u16)> = found.unigrams.iter().map(|r| (r.offset, r.extent)).collect();
    assert_eq!(blocks, vec![(0, 0), (0, 2)]);
    let total: u32 = found.unigrams.iter().map(|r| r.extent as u32).sum();
    assert_eq!(total, found.kept);
}

#[test]
fn dense_indices_follow_the_input_and_rows_follow_the_ids() {
    let first = select_unigrams(&dictionary(&["a", "b"]), &unigrams(&[("b", 3), ("a", 3)]), 2).ok().unwrap();
    let found = build_bigrams(first, &bigrams(&[("a", "a", 1), ("a", "b", 2), ("b", "a", 3)])).ok().unwrap();
    let rows: Vec<((u32, u32), u32)> = found.table.rows().iter().map(|r| (r.0, r.1.index)).collect();
    assert_eq!(rows, vec![((0, 1), 2), ((1, 0), 1), ((1, 1), 0)]);
    let blocks: Vec<(u32, u16)> = found.unigrams.iter().map(|r| (r.offset, r.extent)).collect();
    assert_eq!(blocks, vec![(2, 1), (0, 2)]);
}

#[test]
fn a_prefix_that_comes_back_stops_the_pass() {
    let outcome = build_bigrams(two_words(), &bigrams(&[("a", "b", 2), ("b", "a", 2), ("a", "a", 1)]));
    assert_eq!(outcome.err(), Some(BuildError::PrefixRecurs));
}

#[test]
fn a_block_cannot_outgrow_16_bits() {
    let mut builder = BigramBuilder::new(two_words());
    let a = "a".to_string();
    for _ in 0..65535 {
        assert_eq!(builder.feed(&a, &a, 1), Ok(true));
    }
    assert_eq!(builder.feed(&a, &a, 1), Err(BuildError::BlockTooLong));
    assert_eq!(builder.feed(&"b".to_string(), &a, 1), Ok(true));
    let found = builder.finish();
    assert_eq!(found.kept, 65536);
    assert_eq!(found.unigrams[0].extent, 65535);
    assert_eq!(found.unigrams[1].offset, 65535);
    assert_eq!(found.table.len(), 2);
}

fn three_bigrams() -> ngram_lm::bigrams::Bigrams {
    build_bigrams(two_words(), &bigrams(&[("a", "b", 2), ("b", "a", 2), ("b", "b", 1)])).ok().unwrap()
}

#[test]
fn trigrams_name_the_bigram_to_fall_back_on() {
    let second = three_bigrams();
    let lines = trigrams(&[("a", "b", "a", 1), ("a", "b", "b", 1), ("b", "a", "b", 1), ("b", "b", "a", 1)]);
    let found = build_trigrams(second.symbols, second.table, &lines).ok().unwrap();
    assert_eq!(
        found.records,
        vec![
            TrigramRecord { suffix: 0, log_prob: ratio(1, 2), backoff: 1 },
            TrigramRecord { suffix: 1, log_prob: ratio(1, 2), backoff: 2 },
            TrigramRecord { suffix: 1, log_prob: ratio(1, 2), backoff: 0 },
            TrigramRecord { suffix: 0, log_prob: ratio(1, 1), backoff: 1 },
        ]
    );
    let blocks: Vec<((u32, u32), u32, u16)> = found.table.rows().iter().map(|r| (r.0, r.1.offset, r.1.extent)).collect();
    assert_eq!(blocks, vec![((0, 1), 0, 2), ((1, 0), 2, 1), ((1, 1), 3, 1)]);
    let total: usize = found.table.rows().iter().map(|r| r.1.extent as usize).sum();
    assert_eq!(total, found.records.len());
}

#[test]
fn a_trigram_with_an_unknown_word_leaves_no_trace() {
    let second = three_bigrams();
    let lines = trigrams(&[("a", "b", "c", 5), ("a", "c", "b", 5), ("b", "a", "b", 1), ("c", "a", "b", 5)]);
    let found = build_trigrams(second.symbols, second.table, &lines).ok().unwrap();
    assert_eq!(found.records, vec![TrigramRecord { suffix: 1, log_prob: ratio(1, 2), backoff: 0 }]);
    let blocks: Vec<(u32, u16)> = found.table.rows().iter().map(|r| (r.1.offset, r.1.extent)).collect();
    assert_eq!(blocks, vec![(0, 0), (0, 1), (0, 0)]);
}

#[test]
fn a_pair_first_met_in_a_trigram_is_entered_uncounted() {
    let second = three_bigrams();
    let lines = trigrams(&[("a", "a", "b", 4), ("a", "b", "a", 1)]);
    let found = build_trigrams(second.symbols, second.table, &lines).ok().unwrap();
    assert_eq!(
        found.table.get(0, 0),
        Some(BigramRecord { index: 0, log_prob: LogProb::Zero, count: 0, offset: 0, extent: 1 })
    );
    assert_eq!(
        found.records,
        vec![
            TrigramRecord { suffix: 1, log_prob: ratio(4, 0), backoff: 0 },
            TrigramRecord { suffix: 0, log_prob: ratio(1, 2), backoff: 1 },
        ]
    );
    assert_eq!(found.table.len(), 4);
}

#[test]
fn a_trigram_of_one_word_falls_back_on_its_own_pair() {
    let second = build_bigrams(two_words(), &bigrams(&[("a", "b", 2)])).ok().unwrap();
    let found = build_trigrams(second.symbols, second.table, &trigrams(&[("b", "b", "b", 3)])).ok().unwrap();
    assert_eq!(found.records, vec![TrigramRecord { suffix: 1, log_prob: ratio(3, 0), backoff: 0 }]);
}

#[test]
fn a_missing_fallback_stops_the_pass() {
    let second = build_bigrams(two_words(), &bigrams(&[("a", "b", 2)])).ok().unwrap();
    let outcome = build_trigrams(second.symbols, second.table, &trigrams(&[("a", "b", "a", 1)]));
    assert_eq!(outcome.err(), Some(BuildError::MissingBackoff));
}

#[test]
fn a_pair_that_comes_back_stops_the_pass() {
    let second = three_bigrams();
    let mut builder = TrigramBuilder::new(second.symbols, second.table);
    let (a, b) = ("a".to_string(), "b".to_string());
    assert_eq!(builder.feed(&a, &b, &a, 1), Ok(true));
    assert_eq!(builder.feed(&b, &a, &b, 1), Ok(true));
    assert_eq!(builder.feed(&a, &b, &b, 1), Err(BuildError::PrefixRecurs));
    assert_eq!(builder.feed(&b, &a, &b, 1), Ok(true));
    let found = builder.finish();
    assert_eq!(found.records.len(), 3);
    assert_eq!(found.table.get(1, 0).map(|r| (r.offset, r.extent)), Some((1, 2)));
}

#[test]
fn the_build_runs_the_three_passes() {
    let model = build_model(
        &dictionary(&["a", "b"]),
        &unigrams(&[("a", 3), ("b", 3), ("c", 5)]),
        &bigrams(&[("a", "b", 2), ("b", "a", 2), ("b", "b", 1)]),
        &trigrams(&[("a", "b", "a", 1)]),
        2,
    )
    .ok()
    .unwrap();
    assert_eq!(words(&model.symbols), vec!["a".to_string(), "b".to_string()]);
    assert_eq!(model.unigrams.len(), 2);
    assert_eq!(model.bigrams.len(), 3);
    assert_eq!(model.trigrams, vec![TrigramRecord { suffix: 0, log_prob: ratio(1, 2), backoff: 1 }]);
}

#[test]
fn building_twice_gives_the_same_tables() {
    let build = || {
        build_model(
            &dictionary(&["a", "b", "d"]),
            &unigrams(&[("a", 3), ("b", 3), ("c", 5), ("d", 1)]),
            &bigrams(&[("a", "b", 2), ("a", "d", 1), ("b", "a", 2), ("b", "b", 1)]),
            &trigrams(&[("a", "b", "a", 1), ("a", "b", "b", 1), ("b", "b", "a", 1)]),
            2,
        )
        .ok()
        .unwrap()
    };
    let (one, two) = (build(), build());
    assert_eq!(words(&one.symbols), words(&two.symbols));
    assert_eq!(one.unigrams, two.unigrams);
    assert_eq!(one.bigrams.rows(), two.bigrams.rows());
    assert_eq!(one.trigrams, two.trigrams);
}

#[test]
fn a_fault_in_a_pass_is_the_fault_of_the_build() {
    let outcome = build_model(
        &dictionary(&["a", "b"]),
        &unigrams(&[("a", 3), ("b", 3)]),
        &bigrams(&[("a", "b", 2), ("b", "a", 2), ("a", "a", 1)]),
        &trigrams(&[]),
        2,
    );
    assert_eq!(outcome.err(), Some(BuildError::PrefixRecurs));
}
