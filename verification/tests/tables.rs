use ngram_lm::model::{BigramRecord, LogProb};
use ngram_lm::symbols::WordTable;
use ngram_lm::table::BigramTable;

fn record(index: u32) -> BigramRecord {
    BigramRecord { index, log_prob: LogProb::Zero, count: index, offset: 0, extent: 0 }
}

#[test]
fn words_are_found_at_their_positions() {
    let mut table = WordTable::new();
    assert_eq!(table.len(), 0);
    assert_eq!(table.push("b".to_string()), 0);
    assert_eq!(table.push("a".to_string()), 1);
    assert_eq!(table.push("".to_string()), 2);
    assert_eq!(table.len(), 3);
    assert_eq!(table.lookup(&"a".to_string()), Some(1));
    assert_eq!(table.lookup(&"b".to_string()), Some(0));
    assert_eq!(table.lookup(&"".to_string()), Some(2));
    assert_eq!(table.lookup(&"c".to_string()), None);
    assert!(table.contains(&"a".to_string()));
    assert!(!table.contains(&"ab".to_string()));
    assert_eq!(table.word(1), "a");
    assert_eq!(table.words(), &vec!["b".to_string(), "a".to_string(), "".to_string()]);
}

#[test]
fn a_word_that_comes_twice_is_found_last() {
    let table = WordTable::from_words(vec!["x".to_string(), "y".to_string(), "x".to_string()]);
    assert_eq!(table.len(), 3);
    assert_eq!(table.lookup(&"x".to_string()), Some(2));
    assert_eq!(table.lookup(&"y".to_string()), Some(1));
}

#[test]
fn many_words_are_all_found() {
    let words: Vec<String> = (0..5000).map(|i| format!("w{}", i * 7919 % 5000)).collect();
    let table = WordTable::from_words(words.clone());
    for (i, word) in words.iter().enumerate() {
        assert_eq!(table.lookup(word), Some(i));
    }
    assert_eq!(table.lookup(&"w5000".to_string()), None);
}

#[test]
fn bigram_rows_ascend_by_first_then_second_word() {
    let mut table = BigramTable::new();
    assert_eq!(table.len(), 0);
    table.insert(1, 1, record(0));
    table.insert(0, 7, record(1));
    table.insert(u32::MAX, 0, record(2));
    table.insert(0, 2, record(3));
    table.insert(1, 0, record(4));
    table.insert(0, 7, record(5));
    assert_eq!(table.len(), 5);
    assert_eq!(table.get(0, 7), Some(record(5)));
    assert_eq!(table.get(7, 0), None);
    assert_eq!(
        table.rows(),
        vec![
            ((0, 2), record(3)),
            ((0, 7), record(5)),
            ((1, 0), record(4)),
            ((1, 1), record(0)),
            ((u32::MAX, 0), record(2)),
        ]
    );
}
