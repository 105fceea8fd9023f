use ngram_lm::model::LogProb;
use ngram_lm::pipeline::build_model;
use ngram_lm::symbols::WordTable;
use ngram_lm::text::{parse_ngram_line, parse_word_line};

fn log_prob(value: LogProb) -> f32 {
    match value {
        LogProb::Zero => 0.0,
        LogProb::Ratio { count, normalizer } => (count as f32 / normalizer as f32).ln(),
    }
}

fn records(lines: &[&str], n: usize) -> Vec<(Vec<String>, u32)> {
    lines.iter().map(|line| parse_ngram_line(line, n).unwrap()).collect()
}

#[test]
fn test_generation() {
    let max_no_words = 100_000;

    let dictionary = WordTable::from_words(["a", "b "].iter().map(|line| parse_word_line(line)).collect());
    let unigrams = records(&["a 3", "b 3", "c 5"], 1).into_iter().map(|(w, c)| (w[0].clone(), c)).collect();
    let bigrams = records(&["a b 2", "a c 4", "b a 2", "b b 1", "c a 7"], 2)
        .into_iter()
        .map(|(w, c)| (w[0].clone(), w[1].clone(), c))
        .collect();
    let trigrams = records(&["a b a 1", "a b b 1", "a c a 3", "b a b 1", "b b a 1", "c a b 2"], 3)
        .into_iter()
        .map(|(w, c)| (w[0].clone(), w[1].clone(), w[2].clone(), c))
        .collect();

    let model = build_model(&dictionary, &unigrams, &bigrams, &trigrams, max_no_words).ok().unwrap();

    // Check processing 1-grams
    let correct_content = vec!["-0.6931472 0 1".to_string(), "-0.6931472 1 2".to_string()];
    let mut lines = model
        .unigrams
        .iter()
        .map(|r| format!("{} {} {}", log_prob(r.log_prob), r.offset, r.extent));
    for line in correct_content {
        assert!(lines.next() == Some(line));
    }
    assert!(lines.next() == None);

    // Check processing 2-grams
    let correct_content = vec![
        "1 -0.40546507 0 2".to_string(),
        "0 -0.40546507 2 1".to_string(),
        "1 -1.0986123 3 1".to_string(),
    ];
    let rows = model.bigrams.rows();
    let mut lines = rows
        .iter()
        .map(|(pair, r)| format!("{} {} {} {}", pair.1, log_prob(r.log_prob), r.offset, r.extent));
    for line in correct_content {
        assert!(lines.next() == Some(line));
    }
    assert!(lines.next() == None);

    // Check processing 3-grams
    let correct_content = vec![
        "0 -0.6931472 1".to_string(),
        "1 -0.6931472 2".to_string(),
        "1 -0.6931472 0".to_string(),
        "0 0 1".to_string(),
    ];
    let mut lines = model
        .trigrams
        .iter()
        .map(|r| format!("{} {} {}", r.suffix, log_prob(r.log_prob), r.backoff));
    for line in correct_content {
        assert!(lines.next() == Some(line));
    }
    assert!(lines.next() == None);

    // Check result for symbt
    let correct_content = vec!["a".to_string(), "b".to_string()];
    let mut lines = model.symbols.words().iter().cloned();
    for line in correct_content {
        assert!(lines.next() == Some(line));
    }
    assert!(lines.next() == None);
}

#[test]
fn log_probabilities_of_the_small_model() {
    let dictionary = WordTable::from_words(vec!["a".to_string(), "b".to_string()]);
    let unigrams = vec![("a".to_string(), 3), ("b".to_string(), 3), ("c".to_string(), 5)];
    let bigrams = vec![
        ("a".to_string(), "b".to_string(), 2),
        ("b".to_string(), "a".to_string(), 2),
        ("b".to_string(), "b".to_string(), 1),
    ];
    let model = build_model(&dictionary, &unigrams, &bigrams, &vec![], 2).ok().unwrap();
    for record in &model.unigrams {
        assert!((log_prob(record.log_prob) - (-0.6931472)).abs() < 1e-6);
        assert!(log_prob(record.log_prob) <= 0.0);
    }
    let rows = model.bigrams.rows();
    assert_eq!(rows.len(), 3);
    assert!((log_prob(rows[0].1.log_prob) - (2.0f32 / 3.0).ln()).abs() < 1e-6);
    assert!((log_prob(rows[0].1.log_prob) - (-0.405)).abs() < 1e-3);
    assert_eq!(rows[1].1.log_prob, LogProb::Ratio { count: 2, normalizer: 3 });
    assert_eq!(rows[2].1.log_prob, LogProb::Ratio { count: 1, normalizer: 3 });
    assert_eq!(log_prob(LogProb::Ratio { count: 7, normalizer: 7 }), 0.0);
}
