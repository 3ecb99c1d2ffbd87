use bpetok::training::{Initialized, Training};
use bpetok::word::Word;

#[test]
fn word_symbols_start_as_byte_values() {
    let w = Word::new(&b"ab".to_vec(), None);
    assert_eq!(w.letters, vec![97usize, 98]);
    assert_eq!(w.occurence_count, 1);
    let w = Word::new(&b"ab".to_vec(), Some(4));
    assert_eq!(w.occurence_count, 4);
}

#[test]
fn occurrence_grows_by_one_per_sighting() {
    let mut w = Word::new(&b"a".to_vec(), None);
    w.increase_occurence();
    w.increase_occurence();
    assert_eq!(w.occurence_count, 3);
}

#[test]
fn merge_is_one_greedy_non_overlapping_pass() {
    let mut w = Word::new(&b"aaa".to_vec(), None);
    w.merge_letters(256, (97, 97));
    assert_eq!(w.letters, vec![256usize, 97]);

    let mut w = Word::new(&b"aaaa".to_vec(), None);
    w.merge_letters(256, (97, 97));
    assert_eq!(w.letters, vec![256usize, 256]);

    let mut w = Word::new(&b"ab".to_vec(), None);
    w.merge_letters(256, (97, 97));
    assert_eq!(w.letters, vec![97usize, 98]);
}

#[test]
fn ingestion_collapses_lines_into_word_counts() {
    let trainer = Training::<Initialized>::new(None);
    assert_eq!(trainer.token_limit, 10000);
    let lines = vec![b"the cat  the dog".to_vec(), b"the\tcat".to_vec()];
    let done = trainer.start_training(&lines);
    let words = &done.word_data;
    assert_eq!(words.len(), 3);
    assert_eq!(words[0].letters, vec![116usize, 104, 101]); // "the"
    assert_eq!(words[0].occurence_count, 3);
    assert_eq!(words[1].letters, vec![99usize, 97, 116]); // "cat"
    assert_eq!(words[1].occurence_count, 2);
    assert_eq!(words[2].letters, vec![100usize, 111, 103]); // "dog"
    assert_eq!(words[2].occurence_count, 1);
}

#[test]
fn training_scenario_one_line_two_words() {
    // corpus: one line "aa ab"; word table {"aa": 1, "ab": 1}
    let trainer = Training::<Initialized>::new(Some(257));
    let lines = vec![b"aa ab".to_vec()];
    let done = trainer.start_training(&lines);
    assert_eq!(done.word_data.len(), 2);
    assert_eq!(done.word_data[0].letters, vec![97usize, 97]);
    assert_eq!(done.word_data[0].occurence_count, 1);
    assert_eq!(done.word_data[1].letters, vec![97usize, 98]);
    assert_eq!(done.word_data[1].occurence_count, 1);

    // round 1: weights (97,97) -> 1 and (97,98) -> 1; the tie breaks to
    // the lexicographically smallest pair (97,97); target 257 stops the
    // loop right after this round.
    let finished = done.start_merge().unwrap();
    assert_eq!(finished.word_data[0].letters, vec![256usize]);
    assert_eq!(finished.word_data[1].letters, vec![97usize, 98]);
    let vocab = finished.get_vocabulary();
    assert_eq!(vocab.token_count(), 257);
    let tokens = vocab.get_tokens();
    assert_eq!(tokens[256].get_token_id(), 256);
    assert_eq!(tokens[256].get_token(), b"aa".to_vec());
    assert_eq!(tokens[256].get_pair(), Some((97, 97)));
    assert_eq!(tokens[256].get_occurrence(), 1);
}

#[test]
fn tie_breaks_to_the_lexicographically_smallest_pair() {
    let trainer = Training::<Initialized>::new(Some(257));
    let lines = vec![b"ba ab".to_vec()];
    let finished = trainer.start_training(&lines).start_merge().unwrap();
    let vocab = finished.get_vocabulary();
    let tokens = vocab.get_tokens();
    assert_eq!(tokens[256].get_pair(), Some((97, 98)));
    assert_eq!(tokens[256].get_token(), b"ab".to_vec());
}

#[test]
fn heavier_pairs_win_over_lighter_ones() {
    let trainer = Training::<Initialized>::new(Some(257));
    let lines = vec![b"cd cd ab".to_vec()];
    let finished = trainer.start_training(&lines).start_merge().unwrap();
    let vocab = finished.get_vocabulary();
    let tokens = vocab.get_tokens();
    assert_eq!(tokens[256].get_pair(), Some((99, 100)));
    assert_eq!(tokens[256].get_occurrence(), 2);
}

#[test]
fn training_stops_when_no_pair_is_left() {
    let trainer = Training::<Initialized>::new(Some(1000));
    let lines = vec![b"aa aa".to_vec()];
    let finished = trainer.start_training(&lines).start_merge().unwrap();
    let vocab = finished.get_vocabulary();
    // round 1 merges (97,97); afterwards every word is one symbol long,
    // so the next round finds no pair and training converges early.
    assert_eq!(vocab.token_count(), 257);
}

#[test]
fn empty_corpus_trains_to_the_bare_base_vocabulary() {
    let trainer = Training::<Initialized>::new(Some(500));
    let lines: Vec<Vec<u8>> = vec![];
    let finished = trainer.start_training(&lines).start_merge().unwrap();
    assert_eq!(finished.get_vocabulary().token_count(), 256);
}

#[test]
fn a_target_below_the_seeded_size_changes_nothing() {
    let trainer = Training::<Initialized>::new(Some(10));
    let lines = vec![b"aa ab".to_vec()];
    let finished = trainer.start_training(&lines).start_merge().unwrap();
    assert_eq!(finished.get_vocabulary().token_count(), 256);
}

#[test]
fn vocabulary_size_never_exceeds_the_target() {
    let trainer = Training::<Initialized>::new(Some(260));
    let lines = vec![b"abcdefgh abcdefgh abcd efgh".to_vec()];
    let finished = trainer.start_training(&lines).start_merge().unwrap();
    assert!(finished.get_vocabulary().token_count() <= 260);
}

#[test]
fn vocabulary_grows_by_at_most_one_per_round() {
    let trainer = Training::<Initialized>::new(Some(258));
    let lines = vec![b"aaab aaab".to_vec()];
    let finished = trainer.start_training(&lines).start_merge().unwrap();
    assert_eq!(finished.get_vocabulary().token_count(), 258);
}
